//! Tests for the bencode layer and the KRPC message codec.
use dht_rs::bencode::{bdecode, bencode_encode, BValue};
use dht_rs::krpc::{
    encode_krpc_message, encode_message_bytes, parse_krpc_message, parse_message_bytes, KMessage,
    KRequest, QueryBody, Remote,
};
use dht_rs::node::{Node, NodeAddr, NodeID};

fn id_from(bytes: [u8; 20]) -> NodeID {
    NodeID::wrap(bytes)
}

fn bstr(s: &[u8]) -> BValue {
    BValue::BString(s.to_vec())
}

#[test]
fn bencode_decodes_scalars() {
    assert_eq!(bdecode(b"i42e").unwrap(), BValue::Number(42));
    assert_eq!(bdecode(b"i-7e").unwrap(), BValue::Number(-7));
    assert_eq!(bdecode(b"i0e").unwrap(), BValue::Number(0));
    assert_eq!(bdecode(b"4:spam").unwrap(), bstr(b"spam"));
    assert_eq!(bdecode(b"0:").unwrap(), bstr(b""));
}

#[test]
fn bencode_decodes_collections() {
    assert_eq!(
        bdecode(b"l4:spami42ee").unwrap(),
        BValue::List(vec![bstr(b"spam"), BValue::Number(42)])
    );
    assert_eq!(
        bdecode(b"d3:bar4:spam3:fooi42ee").unwrap(),
        BValue::Dict(vec![
            (b"bar".to_vec(), bstr(b"spam")),
            (b"foo".to_vec(), BValue::Number(42)),
        ])
    );
}

#[test]
fn bencode_rejects_malformed_input() {
    assert!(bdecode(b"").is_err());
    assert!(bdecode(b"i-0e").is_err());
    assert!(bdecode(b"i01e").is_err());
    assert!(bdecode(b"01:a").is_err());
    assert!(bdecode(b"5:spam").is_err());
    assert!(bdecode(b"i42ei1e").is_err());
    assert!(bdecode(b"l4:spam").is_err());
    // dictionary keys out of order
    assert!(bdecode(b"d3:foo0:3:bar0:e").is_err());
}

#[test]
fn bencode_round_trips() {
    let v = BValue::Dict(vec![
        (b"a".to_vec(), BValue::List(vec![BValue::Number(-3), bstr(b"xy")])),
        (b"b".to_vec(), bstr(b"")),
    ]);
    let bytes = bencode_encode(&v);
    assert_eq!(bytes, b"d1:ali-3e2:xye1:b0:e".to_vec());
    assert_eq!(bdecode(bytes.as_slice()).unwrap(), v);
}

#[test]
fn parse_ping_query_test() {
    // S3: the ping query datagram from the protocol description
    let id = [7u8; 20];
    let mut datagram = b"d1:ad2:id20:".to_vec();
    datagram.extend_from_slice(&id);
    datagram.extend_from_slice(b"e1:q4:ping1:t2:aa1:y1:qe");
    let message = parse_message_bytes(datagram.as_slice(), 0).expect("parse message failed");
    assert_eq!(message.transaction_id, b"aa".to_vec());
    match &message.request {
        KRequest::Query(QueryBody::Ping(p)) => assert_eq!(p.id, id_from(id)),
        other => panic!("expected a ping query, got {:?}", other),
    }
    // encode it again and bdecode: the same datagram comes back
    let encoded = encode_message_bytes(&message);
    assert_eq!(encoded, datagram);
}

#[test]
fn parse_get_peers_query_test() {
    let id = [1u8; 20];
    let info = [2u8; 20];
    let mut datagram = b"d1:ad2:id20:".to_vec();
    datagram.extend_from_slice(&id);
    datagram.extend_from_slice(b"9:info_hash20:");
    datagram.extend_from_slice(&info);
    datagram.extend_from_slice(b"e1:q9:get_peers1:t2:aa1:y1:qe");
    let message = parse_message_bytes(datagram.as_slice(), 0).expect("parse message failed");
    match &message.request {
        KRequest::Query(QueryBody::GetPeers(g)) => {
            assert_eq!(g.id, id_from(id));
            assert_eq!(g.info_hash, id_from(info));
        },
        other => panic!("expected a get_peers query, got {:?}", other),
    }
}

#[test]
fn parse_ping_response_test() {
    let id = [9u8; 20];
    let mut datagram = b"d1:rd2:id20:".to_vec();
    datagram.extend_from_slice(&id);
    datagram.extend_from_slice(b"e1:t2:aa1:y1:re");
    let message = parse_message_bytes(datagram.as_slice(), 0).expect("parse message failed");
    match &message.request {
        KRequest::Response(body) => {
            assert_eq!(body.id, id_from(id));
            assert!(body.token.is_none());
            assert!(body.remote.is_none());
        },
        other => panic!("expected a response, got {:?}", other),
    }
}

#[test]
fn parse_get_peers_response_test() {
    // a get_peers answer carrying peers and a token
    let id = [9u8; 20];
    let mut datagram = b"d1:rd2:id20:".to_vec();
    datagram.extend_from_slice(&id);
    datagram.extend_from_slice(b"5:token2:tk6:valuesl6:");
    datagram.extend_from_slice(&[10, 0, 0, 1, 0x1A, 0xE1]);
    datagram.extend_from_slice(b"6:");
    datagram.extend_from_slice(&[10, 0, 0, 2, 0x1A, 0xE2]);
    datagram.extend_from_slice(b"ee1:t2:aa1:y1:re");
    let message = parse_message_bytes(datagram.as_slice(), 0).expect("parse message failed");
    match &message.request {
        KRequest::Response(body) => {
            assert_eq!(body.token, Some(b"tk".to_vec()));
            match &body.remote {
                Some(Remote::Peers(ps)) => {
                    assert_eq!(ps.len(), 2);
                    assert_eq!(ps[0], NodeAddr::new([10, 0, 0, 1], 6881));
                    assert_eq!(ps[1], NodeAddr::new([10, 0, 0, 2], 6882));
                },
                other => panic!("expected peers, got {:?}", other),
            }
        },
        other => panic!("expected a response, got {:?}", other),
    }
}

#[test]
fn find_node_response_compact_nodes() {
    // S4: a response with three 26-byte compact node records decodes to
    // three contacts with those endpoints, in order
    let mut nodes = Vec::new();
    for i in 1u8..4u8 {
        nodes.extend_from_slice(&[i; 20]);
        nodes.extend_from_slice(&[10, 0, 0, i]);
        nodes.extend_from_slice(&[0, i]);
    }
    let id = [9u8; 20];
    let mut datagram = b"d1:rd2:id20:".to_vec();
    datagram.extend_from_slice(&id);
    datagram.extend_from_slice(b"5:nodes78:");
    datagram.extend_from_slice(&nodes);
    datagram.extend_from_slice(b"e1:t2:aa1:y1:re");
    let message = parse_message_bytes(datagram.as_slice(), 4242).expect("parse message failed");
    match &message.request {
        KRequest::Response(body) => match &body.remote {
            Some(Remote::Nodes(ns)) => {
                assert_eq!(ns.len(), 3);
                for i in 1u8..4u8 {
                    let n = &ns[(i - 1) as usize];
                    assert_eq!(n.id, id_from([i; 20]));
                    assert_eq!(n.addr, NodeAddr::new([10, 0, 0, i], i as u16));
                    assert_eq!(n.last_active, 4242);
                }
            },
            other => panic!("expected nodes, got {:?}", other),
        },
        other => panic!("expected a response, got {:?}", other),
    }
}

#[test]
fn parse_error_message() {
    let datagram = b"d1:eli201e23:A Generic Error Ocurrede1:t2:aa1:y1:ee".to_vec();
    let message = parse_message_bytes(datagram.as_slice(), 0).expect("parse message failed");
    match &message.request {
        KRequest::Error((code, text)) => {
            assert_eq!(*code, 201);
            assert_eq!(text, "A Generic Error Ocurred");
        },
        other => panic!("expected an error, got {:?}", other),
    }
}

#[test]
fn decode_errors_name_the_missing_piece() {
    // missing transaction id
    let r = parse_message_bytes(b"d1:y1:qe", 0);
    assert_eq!(r.unwrap_err(), "missing transaction id");
    // missing message type
    let r = parse_message_bytes(b"d1:t2:aae", 0);
    assert_eq!(r.unwrap_err(), "missing message type");
    // a type byte outside q, r, e
    let r = parse_message_bytes(b"d1:t2:aa1:y1:xe", 0);
    assert_eq!(r.unwrap_err(), "bad message type");
    // an unknown query method is refused
    let id = [7u8; 20];
    let mut datagram = b"d1:ad2:id20:".to_vec();
    datagram.extend_from_slice(&id);
    datagram.extend_from_slice(b"e1:q4:pong1:t2:aa1:y1:qe");
    let r = parse_message_bytes(datagram.as_slice(), 0);
    assert_eq!(r.unwrap_err(), "unknown query method");
    // a truncated identifier is refused
    let mut datagram = b"d1:ad2:id3:abc".to_vec();
    datagram.extend_from_slice(b"e1:q4:ping1:t2:aa1:y1:qe");
    let r = parse_message_bytes(datagram.as_slice(), 0);
    assert_eq!(r.unwrap_err(), "bad id");
    // not bencode at all
    let r = parse_message_bytes(b"hello", 0);
    assert_eq!(r.unwrap_err(), "malformed bencode");
}

#[test]
fn announce_peer_round_trip() {
    // P6 on a concrete announce_peer query
    let message = KMessage {
        transaction_id: b"aa".to_vec(),
        request: KRequest::Query(QueryBody::AnnouncePeer(dht_rs::krpc::QAnnouncePeer {
            id: id_from([3; 20]),
            info_hash: id_from([4; 20]),
            implied_port: 1,
            port: 6881,
            token: b"secret".to_vec(),
        })),
    };
    let bytes = encode_message_bytes(&message);
    let back = parse_message_bytes(bytes.as_slice(), 0).expect("parse message failed");
    match &back.request {
        KRequest::Query(QueryBody::AnnouncePeer(a)) => {
            assert_eq!(a.id, id_from([3; 20]));
            assert_eq!(a.info_hash, id_from([4; 20]));
            assert_eq!(a.implied_port, 1);
            assert_eq!(a.port, 6881);
            assert_eq!(a.token, b"secret".to_vec());
        },
        other => panic!("expected announce_peer, got {:?}", other),
    }
}

#[test]
fn nodes_response_round_trip() {
    // P6 on a concrete find_node response carrying contacts
    let ns = vec![
        Node::new(id_from([1; 20]), NodeAddr::new([10, 0, 0, 1], 7001), 99),
        Node::new(id_from([2; 20]), NodeAddr::new([10, 0, 0, 2], 7002), 99),
    ];
    let message = KMessage {
        transaction_id: b"zz".to_vec(),
        request: KRequest::Response(dht_rs::krpc::ResponseBody {
            id: id_from([5; 20]),
            token: Some(b"tok".to_vec()),
            remote: Some(Remote::Nodes(ns)),
        }),
    };
    let encoded = encode_krpc_message(&message);
    let back = parse_krpc_message(&encoded, 99).expect("parse message failed");
    assert_eq!(back.transaction_id, b"zz".to_vec());
    match &back.request {
        KRequest::Response(body) => {
            assert_eq!(body.id, id_from([5; 20]));
            assert_eq!(body.token, Some(b"tok".to_vec()));
            match &body.remote {
                Some(Remote::Nodes(ns2)) => {
                    assert_eq!(ns2.len(), 2);
                    assert_eq!(ns2[0].id, id_from([1; 20]));
                    assert_eq!(ns2[0].addr, NodeAddr::new([10, 0, 0, 1], 7001));
                    assert_eq!(ns2[1].addr, NodeAddr::new([10, 0, 0, 2], 7002));
                },
                other => panic!("expected nodes, got {:?}", other),
            }
        },
        other => panic!("expected a response, got {:?}", other),
    }
}

#[test]
fn error_round_trip() {
    let message = KMessage {
        transaction_id: b"ee".to_vec(),
        request: KRequest::Error((203, "Protocol Error".to_string())),
    };
    let bytes = encode_message_bytes(&message);
    let back = parse_message_bytes(bytes.as_slice(), 0).expect("parse message failed");
    assert_eq!(back.transaction_id, b"ee".to_vec());
    match &back.request {
        KRequest::Error((code, text)) => {
            assert_eq!(*code, 203);
            assert_eq!(text, "Protocol Error");
        },
        other => panic!("expected an error, got {:?}", other),
    }
}
