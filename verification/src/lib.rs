//! Core of a Kademlia-style BitTorrent Mainline DHT node: the routing table,
//! the KRPC message codec, and the request dispatcher.
pub mod bencode;
pub mod bucket;
pub mod hash;
pub mod kademlia;
pub mod krpc;
pub mod node;

use crate::bucket::BUCKET_MAX_CAPACITY;
use crate::kademlia::{
    all_nodes, closest_post, has_node, nodes_model, table_with_insert, wf_table, KademliaTable,
    TableModel,
};
use crate::krpc::{
    encode_krpc_spec, parse_bytes_spec, KMessage, KMessageModel, KRequest, KRequestModel,
    QueryBody, QueryModel, RemoteModel, ResponseBody, ResponseModel,
};
use crate::node::{Node, NodeAddr, NodeID, NodeModel};
use vstd::prelude::*;

verus! {

/// The identifier a message names as its sender: queries and responses
/// carry one, errors do not.
pub open spec fn sender_id(req: KRequestModel) -> Option<Seq<u8>> {
    match req {
        KRequestModel::Query(q) => Some(query_sender(q)),
        KRequestModel::Response(b) => Some(b.id),
        KRequestModel::Error(_) => None,
    }
}

pub open spec fn query_sender(q: QueryModel) -> Seq<u8> {
    match q {
        QueryModel::Ping { id } => id,
        QueryModel::FindNode { id, .. } => id,
        QueryModel::GetPeers { id, .. } => id,
        QueryModel::AnnouncePeer { id, .. } => id,
    }
}

/// The contact a message teaches the table: the sender's identifier at the
/// datagram's origin, heard from now.
pub open spec fn sender_contact(sid: Seq<u8>, addr: crate::node::AddrModel, now: u64) -> NodeModel {
    NodeModel { id: sid, addr, last_active: now }
}

/// A `find_node` or `get_peers` answer: the closest contacts to the target
/// that the table holds, or nothing when the table is empty.
pub open spec fn nodes_answer(t: TableModel, target: Seq<u8>, remote: Option<RemoteModel>) -> bool {
    match remote {
        None => all_nodes(t.buckets).len() == 0,
        Some(RemoteModel::Nodes(ns)) => ns.len() > 0 && closest_post(
            all_nodes(t.buckets),
            target,
            BUCKET_MAX_CAPACITY as int,
            ns,
        ),
        Some(RemoteModel::Peers(_)) => false,
    }
}

/// The response each query kind earns: the same transaction id, the
/// responder's own identifier, and for the lookup queries the closest
/// contacts out of the table as it stands after learning the sender.
pub open spec fn response_to_query(
    self_id: Seq<u8>,
    tid: Seq<u8>,
    q: QueryModel,
    resp: Option<KMessageModel>,
    t_after: TableModel,
) -> bool {
    match q {
        QueryModel::Ping { .. } => resp == Some(
            KMessageModel {
                transaction_id: tid,
                request: KRequestModel::Response(
                    ResponseModel { id: self_id, token: None, remote: None },
                ),
            },
        ),
        QueryModel::AnnouncePeer { .. } => resp == Some(
            KMessageModel {
                transaction_id: tid,
                request: KRequestModel::Response(
                    ResponseModel { id: self_id, token: None, remote: None },
                ),
            },
        ),
        QueryModel::FindNode { target, .. } => resp matches Some(m) && m.transaction_id == tid && (
        m.request matches KRequestModel::Response(b) && b.id == self_id && b.token is None
            && nodes_answer(t_after, target, b.remote)),
        QueryModel::GetPeers { info_hash, .. } => resp matches Some(m) && m.transaction_id == tid
            && (m.request matches KRequestModel::Response(b) && b.id == self_id
            && b.token is Some && nodes_answer(t_after, info_hash, b.remote)),
    }
}

/// Everything one dispatch step does: queries and responses teach the table
/// the sender's contact, queries are answered, responses and errors are not.
pub open spec fn handle_post(
    t0: TableModel,
    t1: TableModel,
    m: KMessageModel,
    addr: crate::node::AddrModel,
    now: u64,
    resp: Option<KMessageModel>,
) -> bool {
    &&& match sender_id(m.request) {
        Some(sid) => t1 == table_with_insert(t0, sender_contact(sid, addr, now)),
        None => t1 == t0,
    }
    &&& match m.request {
        KRequestModel::Query(q) => response_to_query(t0.self_id, m.transaction_id, q, resp, t1),
        KRequestModel::Response(_) => resp is None,
        KRequestModel::Error(_) => resp is None,
    }
}

pub open spec fn opt_msg_view(r: Option<KMessage>) -> Option<KMessageModel> {
    match r {
        Some(m) => Some(m@),
        None => None,
    }
}

/// The dispatcher: this node's routing table, handling each inbound message
/// and producing the response to send back, if any. The surrounding I/O
/// loop owns the socket; it hands in datagrams and sends what comes back.
pub struct DHTTable {
    table: KademliaTable,
}

impl View for DHTTable {
    type V = TableModel;

    closed spec fn view(&self) -> TableModel {
        self.table@
    }
}

impl DHTTable {
    /// A dispatcher with a fresh random identity and an empty table.
    pub fn new() -> (r: Self)
        ensures
            wf_table(r@),
            all_nodes(r@.buckets).len() == 0,
    {
        let id = NodeID::random();
        let table = KademliaTable::new(id);
        let r = DHTTable { table };
        proof {
            assert(all_nodes(r@.buckets) =~= r@.buckets[0].nodes + all_nodes(
                r@.buckets.drop_first(),
            ));
            assert(r@.buckets.drop_first().len() == 0);
            assert(all_nodes(r@.buckets.drop_first()).len() == 0);
        }
        r
    }

    /// This node's own identifier.
    pub fn self_id(&self) -> (r: NodeID)
        ensures
            r@ == self@.self_id,
    {
        self.table.self_id()
    }

    /// The contact with the given identifier, if the table holds one.
    pub fn find_contact(&self, id: &NodeID) -> (r: Option<Node>)
        requires
            wf_table(self@),
        ensures
            r matches Some(n) ==> n@.id == id@ && has_node(all_nodes(self@.buckets), n@),
            r is None ==> forall|m: NodeModel|
                has_node(all_nodes(self@.buckets), m) ==> crate::hash::hv(m.id)
                    != crate::hash::hv(id@),
    {
        self.table.find_contact(id)
    }

    /// Handle one inbound message: learn the sender, then answer queries.
    pub fn handle_message(&mut self, addr: NodeAddr, message: KMessage, now: u64) -> (r: Option<
        KMessage,
    >)
        requires
            wf_table(old(self)@),
        ensures
            wf_table(final(self)@),
            final(self)@.self_id == old(self)@.self_id,
            handle_post(old(self)@, final(self)@, message@, addr@, now, opt_msg_view(r)),
            sender_id(message@.request) matches Some(sid) ==> has_node(
                all_nodes(final(self)@.buckets),
                sender_contact(sid, addr@, now),
            ),
    {
        let KMessage { transaction_id: tid, request } = message;
        match request {
            KRequest::Query(query) => {
                let sid: NodeID = match &query {
                    QueryBody::Ping(p) => p.id,
                    QueryBody::FindNode(f) => f.id,
                    QueryBody::GetPeers(g) => g.id,
                    QueryBody::AnnouncePeer(an) => an.id,
                };
                self.table.insert_node(Node::new(sid, addr, now));
                let self_id = self.table.self_id();
                let body: ResponseBody = match &query {
                    QueryBody::Ping(_) => ResponseBody { id: self_id, token: None, remote: None },
                    QueryBody::AnnouncePeer(_) => ResponseBody {
                        id: self_id,
                        token: None,
                        remote: None,
                    },
                    QueryBody::FindNode(f) => {
                        let ns = self.table.closest(&f.target, BUCKET_MAX_CAPACITY);
                        let remote = if ns.len() == 0 {
                            proof {
                                assert(nodes_model(ns@).len() == 0);
                            }
                            None
                        } else {
                            Some(crate::krpc::Remote::Nodes(ns))
                        };
                        ResponseBody { id: self_id, token: None, remote }
                    },
                    QueryBody::GetPeers(g) => {
                        let ns = self.table.closest(&g.info_hash, BUCKET_MAX_CAPACITY);
                        let remote = if ns.len() == 0 {
                            proof {
                                assert(nodes_model(ns@).len() == 0);
                            }
                            None
                        } else {
                            Some(crate::krpc::Remote::Nodes(ns))
                        };
                        let mut token: Vec<u8> = Vec::new();
                        token.push(116);
                        token.push(107);
                        ResponseBody { id: self_id, token: Some(token), remote }
                    },
                };
                Some(KMessage { transaction_id: tid, request: KRequest::Response(body) })
            },
            KRequest::Response(b) => {
                self.table.insert_node(Node::new(b.id, addr, now));
                None
            },
            KRequest::Error(_) => None,
        }
    }

    /// Handle one inbound datagram: decode, dispatch, encode the response.
    /// A datagram that does not decode is dropped and changes nothing.
    pub fn handle_message_bytes(&mut self, addr: NodeAddr, src: &[u8], now: u64) -> (r: Option<
        Vec<u8>,
    >)
        requires
            wf_table(old(self)@),
        ensures
            wf_table(final(self)@),
            parse_bytes_spec(src@, now) is Err ==> r is None && final(self)@ == old(self)@,
            parse_bytes_spec(src@, now) matches Ok(m) ==> exists|resp: Option<KMessageModel>|
                {
                    &&& #[trigger] handle_post(old(self)@, final(self)@, m, addr@, now, resp)
                    &&& match resp {
                        Some(rm) => r matches Some(bs) && bs@ == crate::bencode::bencode_bytes(
                            encode_krpc_spec(rm),
                        ),
                        None => r is None,
                    }
                },
    {
        match crate::krpc::parse_message_bytes(src, now) {
            Ok(message) => {
                let ghost m = message@;
                let resp = self.handle_message(addr, message, now);
                match resp {
                    Some(out) => {
                        let bytes = crate::krpc::encode_message_bytes(&out);
                        Some(bytes)
                    },
                    None => None,
                }
            },
            Err(_) => None,
        }
    }
}

} // verus!
