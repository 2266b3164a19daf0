//! The KRPC message codec: typed queries, responses and errors, translated
//! to and from bencoded dictionaries as the Mainline DHT wire protocol asks.
use crate::bencode::{bspec_dict_seq, bspec_list_seq, bspec_of, BSpec, BValue};
use crate::hash::{wrap_bytes, HASH_LENGTH};
use crate::node::{AddrModel, Node, NodeAddr, NodeID, NodeModel};
use vstd::prelude::*;

verus! {

broadcast use vstd::std_specs::vec::group_vec_axioms;

/// A KRPC message: an opaque transaction id and a body.
#[derive(Debug)]
pub struct KMessage {
    pub transaction_id: Vec<u8>,
    pub request: KRequest,
}

#[derive(Debug)]
pub enum KRequest {
    Query(QueryBody),
    Response(ResponseBody),
    Error((u32, String)),
}

#[derive(Debug, Clone, PartialEq)]
pub enum QueryBody {
    Ping(QPing),
    FindNode(QFindNode),
    GetPeers(QGetPeers),
    AnnouncePeer(QAnnouncePeer),
}

#[derive(Debug, Clone, PartialEq)]
pub struct QPing {
    pub id: NodeID,
}

#[derive(Debug, Clone, PartialEq)]
pub struct QFindNode {
    pub id: NodeID,
    pub target: NodeID,
}

#[derive(Debug, Clone, PartialEq)]
pub struct QGetPeers {
    pub id: NodeID,
    pub info_hash: NodeID,
}

#[derive(Debug, Clone, PartialEq)]
pub struct QAnnouncePeer {
    pub id: NodeID,
    pub info_hash: NodeID,
    pub implied_port: i32,
    pub port: u16,
    pub token: Vec<u8>,
}

#[derive(Debug, Clone, PartialEq)]
pub enum Remote {
    Nodes(Vec<Node>),
    Peers(Vec<NodeAddr>),
}

#[derive(Debug, Clone, PartialEq)]
pub struct ResponseBody {
    pub id: NodeID,
    pub token: Option<Vec<u8>>,
    pub remote: Option<Remote>,
}

/// Spec models of the message types.
pub struct KMessageModel {
    pub transaction_id: Seq<u8>,
    pub request: KRequestModel,
}

pub enum KRequestModel {
    Query(QueryModel),
    Response(ResponseModel),
    Error((u32, Seq<char>)),
}

pub enum QueryModel {
    Ping { id: Seq<u8> },
    FindNode { id: Seq<u8>, target: Seq<u8> },
    GetPeers { id: Seq<u8>, info_hash: Seq<u8> },
    AnnouncePeer {
        id: Seq<u8>,
        info_hash: Seq<u8>,
        implied_port: i32,
        port: u16,
        token: Seq<u8>,
    },
}

pub enum RemoteModel {
    Nodes(Seq<NodeModel>),
    Peers(Seq<AddrModel>),
}

pub struct ResponseModel {
    pub id: Seq<u8>,
    pub token: Option<Seq<u8>>,
    pub remote: Option<RemoteModel>,
}

impl View for QueryBody {
    type V = QueryModel;

    open spec fn view(&self) -> QueryModel {
        match self {
            QueryBody::Ping(q) => QueryModel::Ping { id: q.id@ },
            QueryBody::FindNode(q) => QueryModel::FindNode { id: q.id@, target: q.target@ },
            QueryBody::GetPeers(q) => QueryModel::GetPeers { id: q.id@, info_hash: q.info_hash@ },
            QueryBody::AnnouncePeer(q) => QueryModel::AnnouncePeer {
                id: q.id@,
                info_hash: q.info_hash@,
                implied_port: q.implied_port,
                port: q.port,
                token: q.token@,
            },
        }
    }
}

impl View for Remote {
    type V = RemoteModel;

    open spec fn view(&self) -> RemoteModel {
        match self {
            Remote::Nodes(ns) => RemoteModel::Nodes(ns@.map_values(|n: Node| n@)),
            Remote::Peers(ps) => RemoteModel::Peers(ps@.map_values(|p: NodeAddr| p@)),
        }
    }
}

impl View for ResponseBody {
    type V = ResponseModel;

    open spec fn view(&self) -> ResponseModel {
        ResponseModel {
            id: self.id@,
            token: match self.token {
                Some(t) => Some(t@),
                None => None,
            },
            remote: match self.remote {
                Some(r) => Some(r@),
                None => None,
            },
        }
    }
}

impl View for KRequest {
    type V = KRequestModel;

    open spec fn view(&self) -> KRequestModel {
        match self {
            KRequest::Query(q) => KRequestModel::Query(q@),
            KRequest::Response(b) => KRequestModel::Response(b@),
            KRequest::Error(e) => KRequestModel::Error((e.0, e.1@)),
        }
    }
}

impl View for KMessage {
    type V = KMessageModel;

    open spec fn view(&self) -> KMessageModel {
        KMessageModel { transaction_id: self.transaction_id@, request: self.request@ }
    }
}

// Dictionary keys and method names, as byte strings.
pub open spec fn k_t() -> Seq<u8> {
    seq![116u8]  // "t"
}

pub open spec fn k_y() -> Seq<u8> {
    seq![121u8]  // "y"
}

pub open spec fn k_q() -> Seq<u8> {
    seq![113u8]  // "q"
}

pub open spec fn k_a() -> Seq<u8> {
    seq![97u8]  // "a"
}

pub open spec fn k_r() -> Seq<u8> {
    seq![114u8]  // "r"
}

pub open spec fn k_e() -> Seq<u8> {
    seq![101u8]  // "e"
}

pub open spec fn k_id() -> Seq<u8> {
    seq![105u8, 100u8]  // "id"
}

pub open spec fn k_target() -> Seq<u8> {
    seq![116u8, 97u8, 114u8, 103u8, 101u8, 116u8]  // "target"
}

pub open spec fn k_info_hash() -> Seq<u8> {
    seq![105u8, 110u8, 102u8, 111u8, 95u8, 104u8, 97u8, 115u8, 104u8]  // "info_hash"
}

pub open spec fn k_port() -> Seq<u8> {
    seq![112u8, 111u8, 114u8, 116u8]  // "port"
}

pub open spec fn k_implied_port() -> Seq<u8> {
    seq![105u8, 109u8, 112u8, 108u8, 105u8, 101u8, 100u8, 95u8, 112u8, 111u8, 114u8, 116u8]  // "implied_port"
}

pub open spec fn k_token() -> Seq<u8> {
    seq![116u8, 111u8, 107u8, 101u8, 110u8]  // "token"
}

pub open spec fn k_values() -> Seq<u8> {
    seq![118u8, 97u8, 108u8, 117u8, 101u8, 115u8]  // "values"
}

pub open spec fn k_nodes() -> Seq<u8> {
    seq![110u8, 111u8, 100u8, 101u8, 115u8]  // "nodes"
}

pub open spec fn m_ping() -> Seq<u8> {
    seq![112u8, 105u8, 110u8, 103u8]  // "ping"
}

pub open spec fn m_find_node() -> Seq<u8> {
    seq![102u8, 105u8, 110u8, 100u8, 95u8, 110u8, 111u8, 100u8, 101u8]  // "find_node"
}

pub open spec fn m_get_peers() -> Seq<u8> {
    seq![103u8, 101u8, 116u8, 95u8, 112u8, 101u8, 101u8, 114u8, 115u8]  // "get_peers"
}

pub open spec fn m_announce_peer() -> Seq<u8> {
    seq![97u8, 110u8, 110u8, 111u8, 117u8, 110u8, 99u8, 101u8, 95u8, 112u8, 101u8, 101u8, 114u8]  // "announce_peer"
}

/// First value stored under the key, if any.
pub open spec fn dict_get(d: Seq<(Seq<u8>, BSpec)>, k: Seq<u8>) -> Option<BSpec>
    decreases d.len(),
{
    if d.len() == 0 {
        None
    } else if d[0].0 == k {
        Some(d[0].1)
    } else {
        dict_get(d.drop_first(), k)
    }
}

/// A compact IPv4 endpoint: four address bytes and a big-endian port.
pub open spec fn addr_of_compact(b: Seq<u8>) -> AddrModel {
    AddrModel { ip: b.subrange(0, 4), port: (b[4] * 256 + b[5]) as u16 }
}

/// A compact node record: 20 identifier bytes, then a compact endpoint.
pub open spec fn node_of_compact(c: Seq<u8>, now: u64) -> NodeModel {
    NodeModel {
        id: c.subrange(0, HASH_LENGTH as int),
        addr: AddrModel { ip: c.subrange(20, 24), port: (c[24] * 256 + c[25]) as u16 },
        last_active: now,
    }
}

/// Peers from a list of 6-byte compact endpoints; `None` when any element
/// is not a 6-byte string.
pub open spec fn peers_of_list(l: Seq<BSpec>) -> Option<Seq<AddrModel>>
    decreases l.len(),
{
    if l.len() == 0 {
        Some(Seq::empty())
    } else {
        match l[0] {
            BSpec::BString(b) => {
                if b.len() == 6 {
                    match peers_of_list(l.drop_first()) {
                        Some(r) => Some(seq![addr_of_compact(b)] + r),
                        None => None,
                    }
                } else {
                    None
                }
            },
            _ => None,
        }
    }
}

/// Nodes from a byte string of 26-byte compact records.
pub open spec fn nodes_of_bytes(nb: Seq<u8>, now: u64) -> Seq<NodeModel> {
    Seq::new(nb.len() / 26, |i: int| node_of_compact(nb.subrange(26 * i, 26 * i + 26), now))
}

/// What decoding a query dictionary yields.
pub open spec fn parse_query_spec(d: Seq<(Seq<u8>, BSpec)>) -> Result<QueryModel, Seq<char>> {
    match (dict_get(d, k_q()), dict_get(d, k_a())) {
        (Some(BSpec::BString(q)), Some(BSpec::Dict(a))) => match dict_get(a, k_id()) {
            Some(BSpec::BString(id)) => {
                if id.len() != HASH_LENGTH {
                    Err("bad id"@)
                } else if q == m_ping() {
                    Ok(QueryModel::Ping { id })
                } else if q == m_find_node() {
                    match dict_get(a, k_target()) {
                        Some(BSpec::BString(t)) => {
                            if t.len() == HASH_LENGTH {
                                Ok(QueryModel::FindNode { id, target: t })
                            } else {
                                Err("bad target"@)
                            }
                        },
                        _ => Err("missing target"@),
                    }
                } else if q == m_get_peers() {
                    match dict_get(a, k_info_hash()) {
                        Some(BSpec::BString(h)) => {
                            if h.len() == HASH_LENGTH {
                                Ok(QueryModel::GetPeers { id, info_hash: h })
                            } else {
                                Err("bad info_hash"@)
                            }
                        },
                        _ => Err("missing info_hash"@),
                    }
                } else if q == m_announce_peer() {
                    parse_announce_spec(a, id)
                } else {
                    Err("unknown query method"@)
                }
            },
            _ => Err("missing id"@),
        },
        _ => Err("data struct error"@),
    }
}

/// What decoding the arguments of an announce_peer query yields.
pub open spec fn parse_announce_spec(a: Seq<(Seq<u8>, BSpec)>, id: Seq<u8>) -> Result<
    QueryModel,
    Seq<char>,
> {
    match dict_get(a, k_info_hash()) {
        Some(BSpec::BString(h)) => {
            if h.len() != HASH_LENGTH {
                Err("bad info_hash"@)
            } else {
                match dict_get(a, k_port()) {
                    Some(BSpec::Number(p)) => {
                        if 0 <= p <= 65535 {
                            let implied = match dict_get(a, k_implied_port()) {
                                Some(BSpec::Number(x)) => {
                                    if x == 0 || x == 1 {
                                        Some(x as i32)
                                    } else {
                                        None
                                    }
                                },
                                Some(_) => None,
                                None => Some(0),
                            };
                            match implied {
                                Some(ip) => match dict_get(a, k_token()) {
                                    Some(BSpec::BString(tok)) => Ok(QueryModel::AnnouncePeer {
                                        id,
                                        info_hash: h,
                                        implied_port: ip,
                                        port: p as u16,
                                        token: tok,
                                    }),
                                    _ => Err("missing token"@),
                                },
                                None => Err("bad implied_port"@),
                            }
                        } else {
                            Err("bad port"@)
                        }
                    },
                    _ => Err("missing port"@),
                }
            }
        },
        _ => Err("missing info_hash"@),
    }
}

/// What decoding a response dictionary yields. Contacts read from compact
/// records are stamped with the observation time `now`.
pub open spec fn parse_response_spec(d: Seq<(Seq<u8>, BSpec)>, now: u64) -> Result<
    ResponseModel,
    Seq<char>,
> {
    match dict_get(d, k_r()) {
        Some(BSpec::Dict(r)) => match dict_get(r, k_id()) {
            Some(BSpec::BString(id)) => {
                if id.len() != HASH_LENGTH {
                    Err("bad id"@)
                } else {
                    let token = match dict_get(r, k_token()) {
                        Some(BSpec::BString(t)) => Some(t),
                        _ => None,
                    };
                    match dict_get(r, k_values()) {
                        Some(BSpec::List(l)) => match peers_of_list(l) {
                            Some(ps) => Ok(
                                ResponseModel {
                                    id,
                                    token,
                                    remote: if ps.len() == 0 {
                                        None
                                    } else {
                                        Some(RemoteModel::Peers(ps))
                                    },
                                },
                            ),
                            None => Err("truncated compact record"@),
                        },
                        _ => match dict_get(r, k_nodes()) {
                            Some(BSpec::BString(nb)) => {
                                if nb.len() % 26 == 0 {
                                    let ns = nodes_of_bytes(nb, now);
                                    Ok(
                                        ResponseModel {
                                            id,
                                            token,
                                            remote: if ns.len() == 0 {
                                                None
                                            } else {
                                                Some(RemoteModel::Nodes(ns))
                                            },
                                        },
                                    )
                                } else {
                                    Ok(ResponseModel { id, token, remote: None })
                                }
                            },
                            _ => Ok(ResponseModel { id, token, remote: None }),
                        },
                    }
                }
            },
            _ => Err("id not found"@),
        },
        _ => Err("not found response body"@),
    }
}

/// What decoding an error dictionary yields: the pair `[code, message]`.
pub open spec fn parse_error_spec(d: Seq<(Seq<u8>, BSpec)>) -> Result<(u32, Seq<char>), Seq<char>> {
    match dict_get(d, k_e()) {
        Some(BSpec::List(l)) => {
            if l.len() == 2 {
                match (l[0], l[1]) {
                    (BSpec::Number(c), BSpec::BString(msg)) => {
                        if 0 <= c <= u32::MAX && (forall|i: int|
                            0 <= i < msg.len() ==> (#[trigger] msg[i]) < 128) {
                            Ok((c as u32, msg.map_values(|b: u8| (b as u32) as char)))
                        } else {
                            Err("bad error body"@)
                        }
                    },
                    _ => Err("bad error body"@),
                }
            } else {
                Err("bad error body"@)
            }
        },
        _ => Err("missing error body"@),
    }
}

/// What decoding a whole message yields: the transaction id is required,
/// the type byte must be one of q, r, e, and the body is decoded by type.
pub open spec fn parse_krpc_spec(v: BSpec, now: u64) -> Result<KMessageModel, Seq<char>> {
    match v {
        BSpec::Dict(d) => match dict_get(d, k_t()) {
            Some(BSpec::BString(tid)) => match dict_get(d, k_y()) {
                Some(BSpec::BString(y)) => {
                    if y.len() != 1 || !(y[0] == 113 || y[0] == 114 || y[0] == 101) {
                        Err("bad message type"@)
                    } else if y[0] == 113 {
                        match parse_query_spec(d) {
                            Ok(q) => Ok(
                                KMessageModel {
                                    transaction_id: tid,
                                    request: KRequestModel::Query(q),
                                },
                            ),
                            Err(e) => Err(e),
                        }
                    } else if y[0] == 114 {
                        match parse_response_spec(d, now) {
                            Ok(b) => Ok(
                                KMessageModel {
                                    transaction_id: tid,
                                    request: KRequestModel::Response(b),
                                },
                            ),
                            Err(e) => Err(e),
                        }
                    } else {
                        match parse_error_spec(d) {
                            Ok(p) => Ok(
                                KMessageModel {
                                    transaction_id: tid,
                                    request: KRequestModel::Error(p),
                                },
                            ),
                            Err(e) => Err(e),
                        }
                    }
                },
                _ => Err("missing message type"@),
            },
            _ => Err("missing transaction id"@),
        },
        _ => Err("not a dictionary"@),
    }
}

/// How the exec decoder must relate to the spec decoder.
pub open spec fn krpc_result_matches(
    r: Result<KMessage, String>,
    m: Result<KMessageModel, Seq<char>>,
) -> bool {
    match (r, m) {
        (Ok(x), Ok(y)) => x@ == y,
        (Err(a), Err(b)) => a@ == b,
        _ => false,
    }
}

pub open spec fn query_result_matches(
    r: Result<QueryBody, String>,
    m: Result<QueryModel, Seq<char>>,
) -> bool {
    match (r, m) {
        (Ok(x), Ok(y)) => x@ == y,
        (Err(a), Err(b)) => a@ == b,
        _ => false,
    }
}

pub open spec fn response_result_matches(
    r: Result<ResponseBody, String>,
    m: Result<ResponseModel, Seq<char>>,
) -> bool {
    match (r, m) {
        (Ok(x), Ok(y)) => x@ == y,
        (Err(a), Err(b)) => a@ == b,
        _ => false,
    }
}

pub open spec fn error_result_matches(
    r: Result<(u32, String), String>,
    m: Result<(u32, Seq<char>), Seq<char>>,
) -> bool {
    match (r, m) {
        (Ok(x), Ok(y)) => x.0 == y.0 && x.1@ == y.1,
        (Err(a), Err(b)) => a@ == b,
        _ => false,
    }
}


/// The dictionary keys and method names as runtime byte vectors.
fn kb_t() -> (r: Vec<u8>)
    ensures
        r@ == k_t(),
{
    let a: [u8; 1] = [116];
    proof {
        assert(a@ =~= k_t());
    }
    vstd::slice::slice_to_vec(a.as_slice())
}

fn kb_y() -> (r: Vec<u8>)
    ensures
        r@ == k_y(),
{
    let a: [u8; 1] = [121];
    proof {
        assert(a@ =~= k_y());
    }
    vstd::slice::slice_to_vec(a.as_slice())
}

fn kb_q() -> (r: Vec<u8>)
    ensures
        r@ == k_q(),
{
    let a: [u8; 1] = [113];
    proof {
        assert(a@ =~= k_q());
    }
    vstd::slice::slice_to_vec(a.as_slice())
}

fn kb_a() -> (r: Vec<u8>)
    ensures
        r@ == k_a(),
{
    let a: [u8; 1] = [97];
    proof {
        assert(a@ =~= k_a());
    }
    vstd::slice::slice_to_vec(a.as_slice())
}

fn kb_r() -> (r: Vec<u8>)
    ensures
        r@ == k_r(),
{
    let a: [u8; 1] = [114];
    proof {
        assert(a@ =~= k_r());
    }
    vstd::slice::slice_to_vec(a.as_slice())
}

fn kb_e() -> (r: Vec<u8>)
    ensures
        r@ == k_e(),
{
    let a: [u8; 1] = [101];
    proof {
        assert(a@ =~= k_e());
    }
    vstd::slice::slice_to_vec(a.as_slice())
}

fn kb_id() -> (r: Vec<u8>)
    ensures
        r@ == k_id(),
{
    let a: [u8; 2] = [105, 100];
    proof {
        assert(a@ =~= k_id());
    }
    vstd::slice::slice_to_vec(a.as_slice())
}

fn kb_target() -> (r: Vec<u8>)
    ensures
        r@ == k_target(),
{
    let a: [u8; 6] = [116, 97, 114, 103, 101, 116];
    proof {
        assert(a@ =~= k_target());
    }
    vstd::slice::slice_to_vec(a.as_slice())
}

fn kb_info_hash() -> (r: Vec<u8>)
    ensures
        r@ == k_info_hash(),
{
    let a: [u8; 9] = [105, 110, 102, 111, 95, 104, 97, 115, 104];
    proof {
        assert(a@ =~= k_info_hash());
    }
    vstd::slice::slice_to_vec(a.as_slice())
}

fn kb_port() -> (r: Vec<u8>)
    ensures
        r@ == k_port(),
{
    let a: [u8; 4] = [112, 111, 114, 116];
    proof {
        assert(a@ =~= k_port());
    }
    vstd::slice::slice_to_vec(a.as_slice())
}

fn kb_implied_port() -> (r: Vec<u8>)
    ensures
        r@ == k_implied_port(),
{
    let a: [u8; 12] = [105, 109, 112, 108, 105, 101, 100, 95, 112, 111, 114, 116];
    proof {
        assert(a@ =~= k_implied_port());
    }
    vstd::slice::slice_to_vec(a.as_slice())
}

fn kb_token() -> (r: Vec<u8>)
    ensures
        r@ == k_token(),
{
    let a: [u8; 5] = [116, 111, 107, 101, 110];
    proof {
        assert(a@ =~= k_token());
    }
    vstd::slice::slice_to_vec(a.as_slice())
}

fn kb_values() -> (r: Vec<u8>)
    ensures
        r@ == k_values(),
{
    let a: [u8; 6] = [118, 97, 108, 117, 101, 115];
    proof {
        assert(a@ =~= k_values());
    }
    vstd::slice::slice_to_vec(a.as_slice())
}

fn kb_nodes() -> (r: Vec<u8>)
    ensures
        r@ == k_nodes(),
{
    let a: [u8; 5] = [110, 111, 100, 101, 115];
    proof {
        assert(a@ =~= k_nodes());
    }
    vstd::slice::slice_to_vec(a.as_slice())
}

fn mb_ping() -> (r: Vec<u8>)
    ensures
        r@ == m_ping(),
{
    let a: [u8; 4] = [112, 105, 110, 103];
    proof {
        assert(a@ =~= m_ping());
    }
    vstd::slice::slice_to_vec(a.as_slice())
}

fn mb_find_node() -> (r: Vec<u8>)
    ensures
        r@ == m_find_node(),
{
    let a: [u8; 9] = [102, 105, 110, 100, 95, 110, 111, 100, 101];
    proof {
        assert(a@ =~= m_find_node());
    }
    vstd::slice::slice_to_vec(a.as_slice())
}

fn mb_get_peers() -> (r: Vec<u8>)
    ensures
        r@ == m_get_peers(),
{
    let a: [u8; 9] = [103, 101, 116, 95, 112, 101, 101, 114, 115];
    proof {
        assert(a@ =~= m_get_peers());
    }
    vstd::slice::slice_to_vec(a.as_slice())
}

fn mb_announce_peer() -> (r: Vec<u8>)
    ensures
        r@ == m_announce_peer(),
{
    let a: [u8; 13] = [97, 110, 110, 111, 117, 110, 99, 101, 95, 112, 101, 101, 114];
    proof {
        assert(a@ =~= m_announce_peer());
    }
    vstd::slice::slice_to_vec(a.as_slice())
}

/// Every byte is an ASCII code point.
fn all_ascii(b: &Vec<u8>) -> (r: bool)
    ensures
        r == (forall|i: int| 0 <= i < b@.len() ==> (#[trigger] b@[i]) < 128),
{
    let mut i: usize = 0;
    while i < b.len()
        invariant
            i <= b@.len(),
            forall|z: int| 0 <= z < i ==> (#[trigger] b@[z]) < 128,
        decreases b@.len() - i,
    {
        if b[i] >= 128 {
            return false;
        }
        i += 1;
    }
    true
}

/// Byte-for-byte equality of two slices.
fn bytes_eq(a: &[u8], b: &[u8]) -> (r: bool)
    ensures
        r == (a@ == b@),
{
    if a.len() != b.len() {
        proof {
            if a@ == b@ {
                assert(a@.len() == b@.len());
            }
        }
        return false;
    }
    let mut i: usize = 0;
    while i < a.len()
        invariant
            i <= a@.len(),
            a@.len() == b@.len(),
            forall|z: int| 0 <= z < i ==> a@[z] == b@[z],
        decreases a@.len() - i,
    {
        if a[i] != b[i] {
            proof {
                if a@ == b@ {
                    assert(a@[i as int] == b@[i as int]);
                }
            }
            return false;
        }
        i += 1;
    }
    proof {
        assert(a@ =~= b@);
    }
    true
}

/// First value stored under the key, if any.
fn dict_get_exec<'a>(d: &'a Vec<(Vec<u8>, BValue)>, key: &[u8]) -> (r: Option<&'a BValue>)
    ensures
        r matches Some(v) ==> dict_get(bspec_dict_seq(d@), key@) == Some(v@),
        r is None ==> dict_get(bspec_dict_seq(d@), key@) is None,
{
    proof {
        crate::bencode::lemma_bspec_dict_props(d@);
    }
    let ghost m = bspec_dict_seq(d@);
    let mut q: usize = 0;
    proof {
        assert(m.subrange(0, m.len() as int) =~= m);
    }
    while q < d.len()
        invariant
            q <= d@.len(),
            m == bspec_dict_seq(d@),
            m.len() == d@.len(),
            forall|z: int| 0 <= z < m.len() ==> #[trigger] m[z] == (d@[z].0@, bspec_of(d@[z].1)),
            dict_get(m, key@) == dict_get(m.subrange(q as int, m.len() as int), key@),
        decreases d@.len() - q,
    {
        let ghost sub = m.subrange(q as int, m.len() as int);
        if bytes_eq(d[q].0.as_slice(), key) {
            proof {
                assert(sub[0] == m[q as int]);
                assert(sub[0].0 == key@);
                assert(dict_get(sub, key@) == Some(sub[0].1));
                assert(m[q as int].1 == bspec_of(d@[q as int].1));
            }
            return Some(&d[q].1);
        }
        proof {
            assert(sub[0] == m[q as int]);
            assert(sub[0].0 != key@);
            assert(sub.drop_first() =~= m.subrange(q as int + 1, m.len() as int));
        }
        q += 1;
    }
    proof {
        assert(m.subrange(m.len() as int, m.len() as int).len() == 0);
    }
    None
}

/// Relies on String::from_utf8: ASCII bytes decode to one character per
/// byte, with the same code points.
#[verifier::external_body]
fn string_from_ascii(bytes: Vec<u8>) -> (r: String)
    requires
        forall|i: int| 0 <= i < bytes@.len() ==> bytes@[i] < 128,
    ensures
        r@ == bytes@.map_values(|b: u8| (b as u32) as char),
{
    match String::from_utf8(bytes) {
        Ok(s) => s,
        Err(_) => String::new(),
    }
}

/// Decode the query body of a message whose type byte is `q`.
fn parse_query(d: &Vec<(Vec<u8>, BValue)>) -> (r: Result<QueryBody, String>)
    ensures
        query_result_matches(r, parse_query_spec(bspec_dict_seq(d@))),
{
    let q_opt = dict_get_exec(d, kb_q().as_slice());
    let a_opt = dict_get_exec(d, kb_a().as_slice());
    let (q, a) = match (q_opt, a_opt) {
        (Some(BValue::BString(q)), Some(BValue::Dict(a))) => (q, a),
        _ => {
            return Err("data struct error".to_owned());
        },
    };
    let id_bytes = match dict_get_exec(a, kb_id().as_slice()) {
        Some(BValue::BString(b)) => b,
        _ => {
            return Err("missing id".to_owned());
        },
    };
    if id_bytes.len() != HASH_LENGTH {
        return Err("bad id".to_owned());
    }
    let id = wrap_bytes(id_bytes.as_slice());
    if bytes_eq(q.as_slice(), mb_ping().as_slice()) {
        // "ping"
        return Ok(QueryBody::Ping(QPing { id }));
    }
    if bytes_eq(q.as_slice(), mb_find_node().as_slice()) {
        // "find_node"
        let t_bytes = match dict_get_exec(a, kb_target().as_slice()) {
            Some(BValue::BString(b)) => b,
            _ => {
                return Err("missing target".to_owned());
            },
        };
        if t_bytes.len() != HASH_LENGTH {
            return Err("bad target".to_owned());
        }
        let target = wrap_bytes(t_bytes.as_slice());
        return Ok(QueryBody::FindNode(QFindNode { id, target }));
    }
    if bytes_eq(q.as_slice(), mb_get_peers().as_slice()) {
        // "get_peers"
        let h_bytes = match dict_get_exec(a, kb_info_hash().as_slice()) {
            Some(BValue::BString(b)) => b,
            _ => {
                return Err("missing info_hash".to_owned());
            },
        };
        if h_bytes.len() != HASH_LENGTH {
            return Err("bad info_hash".to_owned());
        }
        let info_hash = wrap_bytes(h_bytes.as_slice());
        return Ok(QueryBody::GetPeers(QGetPeers { id, info_hash }));
    }
    if bytes_eq(q.as_slice(), mb_announce_peer().as_slice()) {
        // "announce_peer"
        return parse_announce(a, id);
    }
    Err("unknown query method".to_owned())
}

/// Decode the arguments of an announce_peer query.
fn parse_announce(a: &Vec<(Vec<u8>, BValue)>, id: NodeID) -> (r: Result<QueryBody, String>)
    ensures
        query_result_matches(r, parse_announce_spec(bspec_dict_seq(a@), id@)),
{
    let h_bytes = match dict_get_exec(a, kb_info_hash().as_slice()) {
        Some(BValue::BString(b)) => b,
        _ => {
            return Err("missing info_hash".to_owned());
        },
    };
    if h_bytes.len() != HASH_LENGTH {
        return Err("bad info_hash".to_owned());
    }
    let info_hash = wrap_bytes(h_bytes.as_slice());
    let p = match dict_get_exec(a, kb_port().as_slice()) {
        Some(BValue::Number(p)) => *p,
        _ => {
            return Err("missing port".to_owned());
        },
    };
    if !(0 <= p && p <= 65535) {
        return Err("bad port".to_owned());
    }
    let implied_port: i32 = match dict_get_exec(a, kb_implied_port().as_slice()) {
        Some(BValue::Number(x)) => {
            if *x == 0 || *x == 1 {
                *x as i32
            } else {
                return Err("bad implied_port".to_owned());
            }
        },
        Some(_) => {
            return Err("bad implied_port".to_owned());
        },
        None => 0,
    };
    let token = match dict_get_exec(a, kb_token().as_slice()) {
        Some(BValue::BString(t)) => vstd::slice::slice_to_vec(t.as_slice()),
        _ => {
            return Err("missing token".to_owned());
        },
    };
    Ok(
        QueryBody::AnnouncePeer(
            QAnnouncePeer { id, info_hash, implied_port, port: p as u16, token },
        ),
    )
}

/// Decode the response body of a message whose type byte is `r`.
fn parse_response(d: &Vec<(Vec<u8>, BValue)>, now: u64) -> (r: Result<ResponseBody, String>)
    ensures
        response_result_matches(r, parse_response_spec(bspec_dict_seq(d@), now)),
{
    let rd = match dict_get_exec(d, kb_r().as_slice()) {
        Some(BValue::Dict(rd)) => rd,
        _ => {
            return Err("not found response body".to_owned());
        },
    };
    let id_bytes = match dict_get_exec(rd, kb_id().as_slice()) {
        Some(BValue::BString(b)) => b,
        _ => {
            return Err("id not found".to_owned());
        },
    };
    if id_bytes.len() != HASH_LENGTH {
        return Err("bad id".to_owned());
    }
    let id = wrap_bytes(id_bytes.as_slice());
    let token: Option<Vec<u8>> = match dict_get_exec(rd, kb_token().as_slice()) {
        Some(BValue::BString(t)) => Some(vstd::slice::slice_to_vec(t.as_slice())),
        _ => None,
    };
    match dict_get_exec(rd, kb_values().as_slice()) {
        Some(BValue::List(l)) => {
            match parse_peer_list(l) {
                Some(ps) => {
                    let remote = if ps.len() == 0 {
                        None
                    } else {
                        Some(Remote::Peers(ps))
                    };
                    Ok(ResponseBody { id, token, remote })
                },
                None => Err("truncated compact record".to_owned()),
            }
        },
        _ => {
            match dict_get_exec(rd, kb_nodes().as_slice()) {
                Some(BValue::BString(nb)) => {
                    if nb.len() % 26 == 0 {
                        let ns = parse_compact_nodes(nb, now);
                        let remote = if ns.len() == 0 {
                            None
                        } else {
                            Some(Remote::Nodes(ns))
                        };
                        Ok(ResponseBody { id, token, remote })
                    } else {
                        Ok(ResponseBody { id, token, remote: None })
                    }
                },
                _ => Ok(ResponseBody { id, token, remote: None }),
            }
        },
    }
}

/// Decode a list of 6-byte compact endpoints; `None` when some element is
/// not one.
fn parse_peer_list(l: &Vec<BValue>) -> (r: Option<Vec<NodeAddr>>)
    ensures
        r matches Some(ps) ==> peers_of_list(bspec_list_seq(l@)) == Some(
            ps@.map_values(|p: NodeAddr| p@),
        ),
        r is None ==> peers_of_list(bspec_list_seq(l@)) is None,
{
    proof {
        crate::bencode::lemma_bspec_list_props(l@);
    }
    let ghost m = bspec_list_seq(l@);
    let mut out: Vec<NodeAddr> = Vec::new();
    let mut k: usize = 0;
    proof {
        assert(m.subrange(0, m.len() as int) =~= m);
        assert(out@.map_values(|p: NodeAddr| p@) =~= Seq::<AddrModel>::empty());
    }
    while k < l.len()
        invariant
            k <= l@.len(),
            m == bspec_list_seq(l@),
            m.len() == l@.len(),
            forall|z: int| 0 <= z < m.len() ==> #[trigger] m[z] == bspec_of(l@[z]),
            peers_of_list(m) == match peers_of_list(m.subrange(k as int, m.len() as int)) {
                Some(rest) => Some(out@.map_values(|p: NodeAddr| p@) + rest),
                None => None::<Seq<AddrModel>>,
            },
        decreases l@.len() - k,
    {
        let ghost sub = m.subrange(k as int, m.len() as int);
        let ghost outm = out@.map_values(|p: NodeAddr| p@);
        proof {
            assert(sub[0] == m[k as int]);
        }
        match &l[k] {
            BValue::BString(b) => {
                if b.len() != 6 {
                    return None;
                }
                let ip: [u8; 4] = [b[0], b[1], b[2], b[3]];
                let port: u16 = (b[4] as u16) * 256 + (b[5] as u16);
                let addr = NodeAddr::new(ip, port);
                out.push(addr);
                proof {
                    assert(ip@ =~= b@.subrange(0, 4));
                    assert(addr@ == addr_of_compact(b@));
                    assert(sub.drop_first() =~= m.subrange(k as int + 1, m.len() as int));
                    let newoutm = out@.map_values(|p: NodeAddr| p@);
                    assert(newoutm =~= outm.push(addr@));
                    let tail = peers_of_list(m.subrange(k as int + 1, m.len() as int));
                    if tail is Some {
                        let r0 = tail.unwrap();
                        assert(peers_of_list(sub) == Some(seq![addr_of_compact(b@)] + r0));
                        assert(outm + (seq![addr_of_compact(b@)] + r0) =~= newoutm + r0);
                    } else {
                        assert(peers_of_list(sub) is None);
                    }
                }
            },
            _ => {
                return None;
            },
        }
        k += 1;
    }
    proof {
        assert(m.subrange(m.len() as int, m.len() as int).len() == 0);
        assert(peers_of_list(m) == Some(out@.map_values(|p: NodeAddr| p@) + Seq::<
            AddrModel,
        >::empty()));
        assert(out@.map_values(|p: NodeAddr| p@) + Seq::<AddrModel>::empty() =~= out@.map_values(
            |p: NodeAddr| p@,
        ));
    }
    Some(out)
}

/// Decode a byte string of 26-byte compact node records, stamping every
/// contact with the observation time.
fn parse_compact_nodes(nb: &Vec<u8>, now: u64) -> (r: Vec<Node>)
    requires
        nb@.len() % 26 == 0,
    ensures
        r@.map_values(|n: Node| n@) == nodes_of_bytes(nb@, now),
{
    let count = nb.len() / 26;
    let mut out: Vec<Node> = Vec::new();
    let mut k: usize = 0;
    proof {
        vstd::arithmetic::div_mod::lemma_fundamental_div_mod(nb@.len() as int, 26);
        vstd::arithmetic::div_mod::lemma_mod_bound(nb@.len() as int, 26);
        assert(26 * ((nb@.len() as int) / 26) <= nb@.len());
        assert((nb@.len() / 26) * 26 <= nb@.len());
    }
    while k < count
        invariant
            k <= count,
            count == nb@.len() / 26,
            count * 26 <= nb@.len(),
            nb@.len() <= usize::MAX,
            out@.len() == k,
            forall|z: int|
                0 <= z < k ==> (#[trigger] out@[z])@ == nodes_of_bytes(nb@, now)[z],
        decreases count - k,
    {
        proof {
            assert(k + 1 <= count);
            assert((k + 1) * 26 <= count * 26) by (nonlinear_arith)
                requires
                    k + 1 <= count,
            ;
            assert(count * 26 <= nb@.len());
            assert(k * 26 + 26 <= nb@.len());
        }
        let base = k * 26;
        let id = wrap_bytes(vstd::slice::slice_subrange(nb.as_slice(), base, base + 20));
        let ip: [u8; 4] = [nb[base + 20], nb[base + 21], nb[base + 22], nb[base + 23]];
        let port: u16 = (nb[base + 24] as u16) * 256 + (nb[base + 25] as u16);
        let n = Node::new(id, NodeAddr::new(ip, port), now);
        out.push(n);
        proof {
            let c = nb@.subrange(26 * k as int, 26 * k as int + 26);
            assert(c.subrange(0, HASH_LENGTH as int) =~= nb@.subrange(
                base as int,
                base as int + 20,
            ));
            assert(ip@ =~= c.subrange(20, 24));
            assert(c[24] == nb@[base as int + 24] && c[25] == nb@[base as int + 25]);
            assert(n@ == node_of_compact(c, now));
            assert(nodes_of_bytes(nb@, now)[k as int] == node_of_compact(c, now));
        }
        k += 1;
    }
    proof {
        assert(nodes_of_bytes(nb@, now).len() == count);
        assert(out@.map_values(|n: Node| n@) =~= nodes_of_bytes(nb@, now));
    }
    out
}

/// Decode the error body of a message whose type byte is `e`.
fn parse_error(d: &Vec<(Vec<u8>, BValue)>) -> (r: Result<(u32, String), String>)
    ensures
        error_result_matches(r, parse_error_spec(bspec_dict_seq(d@))),
{
    let l = match dict_get_exec(d, kb_e().as_slice()) {
        Some(BValue::List(l)) => l,
        _ => {
            return Err("missing error body".to_owned());
        },
    };
    proof {
        crate::bencode::lemma_bspec_list_props(l@);
    }
    if l.len() != 2 {
        return Err("bad error body".to_owned());
    }
    let code: i64 = match &l[0] {
        BValue::Number(c) => *c,
        _ => {
            return Err("bad error body".to_owned());
        },
    };
    let msg = match &l[1] {
        BValue::BString(b) => b,
        _ => {
            return Err("bad error body".to_owned());
        },
    };
    if !(0 <= code && code <= 4294967295i64) {
        return Err("bad error body".to_owned());
    }
    if !all_ascii(msg) {
        return Err("bad error body".to_owned());
    }
    let text = string_from_ascii(vstd::slice::slice_to_vec(msg.as_slice()));
    Ok((code as u32, text))
}

/// Decode a bdecoded value into a typed message. Contacts found in compact
/// records are stamped with the observation time `now`.
pub fn parse_krpc_message(src: &BValue, now: u64) -> (r: Result<KMessage, String>)
    ensures
        krpc_result_matches(r, parse_krpc_spec(src@, now)),
{
    let d = match src {
        BValue::Dict(d) => d,
        _ => {
            return Err("not a dictionary".to_owned());
        },
    };
    let tid = match dict_get_exec(d, kb_t().as_slice()) {
        Some(BValue::BString(t)) => vstd::slice::slice_to_vec(t.as_slice()),
        _ => {
            return Err("missing transaction id".to_owned());
        },
    };
    let y = match dict_get_exec(d, kb_y().as_slice()) {
        Some(BValue::BString(y)) => y,
        _ => {
            return Err("missing message type".to_owned());
        },
    };
    if y.len() != 1 || !(y[0] == 113 || y[0] == 114 || y[0] == 101) {
        return Err("bad message type".to_owned());
    }
    if y[0] == 113 {
        match parse_query(d) {
            Ok(q) => Ok(KMessage { transaction_id: tid, request: KRequest::Query(q) }),
            Err(e) => Err(e),
        }
    } else if y[0] == 114 {
        match parse_response(d, now) {
            Ok(b) => Ok(KMessage { transaction_id: tid, request: KRequest::Response(b) }),
            Err(e) => Err(e),
        }
    } else {
        match parse_error(d) {
            Ok(p) => Ok(KMessage { transaction_id: tid, request: KRequest::Error(p) }),
            Err(e) => Err(e),
        }
    }
}

// ---- Encoding: the inverse direction of the codec. ----

/// Big-endian bytes of a port.
pub open spec fn be16(p: u16) -> Seq<u8> {
    seq![(p / 256) as u8, (p % 256) as u8]
}

/// Compact endpoint: four address bytes, then the big-endian port.
pub open spec fn compact_addr(a: AddrModel) -> Seq<u8> {
    a.ip + be16(a.port)
}

/// Compact node record: identifier bytes, then the compact endpoint.
pub open spec fn compact_node(n: NodeModel) -> Seq<u8> {
    n.id + n.addr.ip + be16(n.addr.port)
}

/// Concatenation of the first `k` compact node records.
pub open spec fn compact_nodes_prefix(ns: Seq<NodeModel>, k: int) -> Seq<u8>
    decreases k,
{
    if k <= 0 {
        Seq::empty()
    } else {
        compact_nodes_prefix(ns, k - 1) + compact_node(ns[k - 1])
    }
}

/// Concatenation of all compact node records.
pub open spec fn compact_nodes(ns: Seq<NodeModel>) -> Seq<u8> {
    compact_nodes_prefix(ns, ns.len() as int)
}

/// ASCII bytes of a character string.
pub open spec fn ascii_bytes(s: Seq<char>) -> Seq<u8> {
    s.map_values(|c: char| ((c as u32) % 256) as u8)
}

/// The method name of a query.
pub open spec fn method_name(q: QueryModel) -> Seq<u8> {
    match q {
        QueryModel::Ping { .. } => m_ping(),
        QueryModel::FindNode { .. } => m_find_node(),
        QueryModel::GetPeers { .. } => m_get_peers(),
        QueryModel::AnnouncePeer { .. } => m_announce_peer(),
    }
}

/// The argument dictionary of a query, keys in ascending order.
pub open spec fn args_spec(q: QueryModel) -> Seq<(Seq<u8>, BSpec)> {
    match q {
        QueryModel::Ping { id } => seq![(k_id(), BSpec::BString(id))],
        QueryModel::FindNode { id, target } => seq![
            (k_id(), BSpec::BString(id)),
            (k_target(), BSpec::BString(target)),
        ],
        QueryModel::GetPeers { id, info_hash } => seq![
            (k_id(), BSpec::BString(id)),
            (k_info_hash(), BSpec::BString(info_hash)),
        ],
        QueryModel::AnnouncePeer { id, info_hash, implied_port, port, token } => seq![
            (k_id(), BSpec::BString(id)),
            (k_implied_port(), BSpec::Number(implied_port as i64)),
            (k_info_hash(), BSpec::BString(info_hash)),
            (k_port(), BSpec::Number(port as i64)),
            (k_token(), BSpec::BString(token)),
        ],
    }
}

/// The payload dictionary of a response, keys in ascending order: the
/// sender identifier, then compact nodes, a token, or compact peers as far
/// as they are present.
pub open spec fn rdict_spec(b: ResponseModel) -> Seq<(Seq<u8>, BSpec)> {
    let ident = (k_id(), BSpec::BString(b.id));
    match (b.remote, b.token) {
        (None, None) => seq![ident],
        (None, Some(t)) => seq![ident, (k_token(), BSpec::BString(t))],
        (Some(RemoteModel::Nodes(ns)), None) => seq![
            ident,
            (k_nodes(), BSpec::BString(compact_nodes(ns))),
        ],
        (Some(RemoteModel::Nodes(ns)), Some(t)) => seq![
            ident,
            (k_nodes(), BSpec::BString(compact_nodes(ns))),
            (k_token(), BSpec::BString(t)),
        ],
        (Some(RemoteModel::Peers(ps)), None) => seq![
            ident,
            (k_values(), BSpec::List(peer_list_spec(ps))),
        ],
        (Some(RemoteModel::Peers(ps)), Some(t)) => seq![
            ident,
            (k_token(), BSpec::BString(t)),
            (k_values(), BSpec::List(peer_list_spec(ps))),
        ],
    }
}

/// The list of compact endpoints carried under `values`.
pub open spec fn peer_list_spec(ps: Seq<AddrModel>) -> Seq<BSpec> {
    Seq::new(ps.len(), |i: int| BSpec::BString(compact_addr(ps[i])))
}

/// The bencoded shape of a whole message: a dictionary with the body under
/// `a`/`q`, `r`, or `e`, the transaction id under `t`, and the type byte
/// under `y`, keys in ascending order.
pub open spec fn encode_krpc_spec(m: KMessageModel) -> BSpec {
    match m.request {
        KRequestModel::Query(q) => BSpec::Dict(
            seq![
                (k_a(), BSpec::Dict(args_spec(q))),
                (k_q(), BSpec::BString(method_name(q))),
                (k_t(), BSpec::BString(m.transaction_id)),
                (k_y(), BSpec::BString(seq![113u8])),
            ],
        ),
        KRequestModel::Response(b) => BSpec::Dict(
            seq![
                (k_r(), BSpec::Dict(rdict_spec(b))),
                (k_t(), BSpec::BString(m.transaction_id)),
                (k_y(), BSpec::BString(seq![114u8])),
            ],
        ),
        KRequestModel::Error((c, msg)) => BSpec::Dict(
            seq![
                (
                    k_e(),
                    BSpec::List(seq![BSpec::Number(c as i64), BSpec::BString(ascii_bytes(msg))]),
                ),
                (k_t(), BSpec::BString(m.transaction_id)),
                (k_y(), BSpec::BString(seq![101u8])),
            ],
        ),
    }
}

/// The identifier's bytes as a vector.
fn hash_vec(h: &NodeID) -> (r: Vec<u8>)
    ensures
        r@ == h@,
{
    vstd::slice::slice_to_vec(h.val.as_slice())
}

/// Compact bytes of one endpoint.
fn compact_addr_exec(a: &NodeAddr) -> (r: Vec<u8>)
    ensures
        r@ == compact_addr(a@),
{
    let mut out = vstd::slice::slice_to_vec(a.ip.as_slice());
    out.push((a.port / 256) as u8);
    out.push((a.port % 256) as u8);
    proof {
        assert(out@ =~= compact_addr(a@));
    }
    out
}

/// Compact bytes of a list of contacts, in order.
fn compact_nodes_exec(ns: &Vec<Node>) -> (r: Vec<u8>)
    ensures
        r@ == compact_nodes(ns@.map_values(|n: Node| n@)),
{
    let ghost m = ns@.map_values(|n: Node| n@);
    let mut out: Vec<u8> = Vec::new();
    let mut k: usize = 0;
    proof {
        assert(out@ =~= compact_nodes_prefix(m, 0));
    }
    while k < ns.len()
        invariant
            k <= ns@.len(),
            m == ns@.map_values(|n: Node| n@),
            m.len() == ns@.len(),
            out@ == compact_nodes_prefix(m, k as int),
        decreases ns@.len() - k,
    {
        let ghost before = out@;
        let idb = hash_vec(&ns[k].id);
        out.extend_from_slice(idb.as_slice());
        out.extend_from_slice(ns[k].addr.ip.as_slice());
        out.push((ns[k].addr.port / 256) as u8);
        out.push((ns[k].addr.port % 256) as u8);
        proof {
            assert(m[k as int] == ns@[k as int]@);
            assert(out@ =~= before + compact_node(m[k as int]));
            assert(out@ =~= compact_nodes_prefix(m, k as int + 1));
        }
        k += 1;
    }
    out
}

/// The `values` list of compact endpoints.
fn peer_list_exec(ps: &Vec<NodeAddr>) -> (r: Vec<BValue>)
    ensures
        bspec_list_seq(r@) == peer_list_spec(ps@.map_values(|p: NodeAddr| p@)),
{
    let ghost m = ps@.map_values(|p: NodeAddr| p@);
    let mut out: Vec<BValue> = Vec::new();
    let mut k: usize = 0;
    while k < ps.len()
        invariant
            k <= ps@.len(),
            m == ps@.map_values(|p: NodeAddr| p@),
            m.len() == ps@.len(),
            out@.len() == k,
            forall|z: int|
                0 <= z < k ==> bspec_of(#[trigger] out@[z]) == BSpec::BString(compact_addr(m[z])),
        decreases ps@.len() - k,
    {
        let b = compact_addr_exec(&ps[k]);
        out.push(BValue::BString(b));
        proof {
            assert(m[k as int] == ps@[k as int]@);
        }
        k += 1;
    }
    proof {
        crate::bencode::lemma_bspec_list_props(out@);
        assert(bspec_list_seq(out@) =~= peer_list_spec(m));
    }
    out
}

/// ASCII bytes of an error message.
fn ascii_bytes_exec(msg: &String) -> (r: Vec<u8>)
    ensures
        r@ == ascii_bytes(msg@),
{
    let s = msg.as_str();
    let n = s.unicode_len();
    let mut out: Vec<u8> = Vec::new();
    let mut i: usize = 0;
    while i < n
        invariant
            i <= n,
            n == s@.len(),
            s@ == msg@,
            out@.len() == i,
            forall|z: int| 0 <= z < i ==> out@[z] == ascii_bytes(msg@)[z],
        decreases n - i,
    {
        let c = s.get_char(i);
        let b: u8 = ((c as u32) % 256) as u8;
        out.push(b);
        i += 1;
    }
    proof {
        assert(out@ =~= ascii_bytes(msg@));
    }
    out
}

/// Encode a typed message as a bencoded dictionary. The result decodes back
/// to an equal message (`lemma_codec_round_trip`).
pub fn encode_krpc_message(m: &KMessage) -> (r: BValue)
    ensures
        r@ == encode_krpc_spec(m@),
{
    let tid = vstd::slice::slice_to_vec(m.transaction_id.as_slice());
    match &m.request {
        KRequest::Query(q) => {
            let mut args: Vec<(Vec<u8>, BValue)> = Vec::new();
            let method: Vec<u8>;
            match q {
                QueryBody::Ping(p) => {
                    args.push((kb_id(), BValue::BString(hash_vec(&p.id))));
                    method = mb_ping();
                },
                QueryBody::FindNode(f) => {
                    args.push((kb_id(), BValue::BString(hash_vec(&f.id))));
                    args.push((kb_target(), BValue::BString(hash_vec(&f.target))));
                    method = mb_find_node();
                },
                QueryBody::GetPeers(g) => {
                    args.push((kb_id(), BValue::BString(hash_vec(&g.id))));
                    args.push((kb_info_hash(), BValue::BString(hash_vec(&g.info_hash))));
                    method = mb_get_peers();
                },
                QueryBody::AnnouncePeer(an) => {
                    args.push((kb_id(), BValue::BString(hash_vec(&an.id))));
                    args.push((kb_implied_port(), BValue::Number(an.implied_port as i64)));
                    args.push((kb_info_hash(), BValue::BString(hash_vec(&an.info_hash))));
                    args.push((kb_port(), BValue::Number(an.port as i64)));
                    args.push(
                        (kb_token(), BValue::BString(vstd::slice::slice_to_vec(an.token.as_slice()))),
                    );
                    method = mb_announce_peer();
                },
            }
            proof {
                crate::bencode::lemma_bspec_dict_props(args@);
                assert(bspec_dict_seq(args@) =~= args_spec(q@));
            }
            let mut d: Vec<(Vec<u8>, BValue)> = Vec::new();
            d.push((kb_a(), BValue::Dict(args)));
            d.push((kb_q(), BValue::BString(method)));
            d.push((kb_t(), BValue::BString(tid)));
            let mut yv: Vec<u8> = Vec::new();
            yv.push(113);
            d.push((kb_y(), BValue::BString(yv)));
            proof {
                crate::bencode::lemma_bspec_dict_props(d@);
                assert(yv@ =~= seq![113u8]);
                assert(bspec_dict_seq(d@) =~= encode_krpc_spec(m@)->Dict_0);
            }
            BValue::Dict(d)
        },
        KRequest::Response(b) => {
            let mut rd: Vec<(Vec<u8>, BValue)> = Vec::new();
            rd.push((kb_id(), BValue::BString(hash_vec(&b.id))));
            match &b.remote {
                Some(Remote::Nodes(ns)) => {
                    rd.push((kb_nodes(), BValue::BString(compact_nodes_exec(ns))));
                },
                _ => {},
            }
            match &b.token {
                Some(t) => {
                    rd.push(
                        (kb_token(), BValue::BString(vstd::slice::slice_to_vec(t.as_slice()))),
                    );
                },
                None => {},
            }
            match &b.remote {
                Some(Remote::Peers(ps)) => {
                    rd.push((kb_values(), BValue::List(peer_list_exec(ps))));
                },
                _ => {},
            }
            proof {
                crate::bencode::lemma_bspec_dict_props(rd@);
                assert(bspec_dict_seq(rd@) =~= rdict_spec(b@));
            }
            let mut d: Vec<(Vec<u8>, BValue)> = Vec::new();
            d.push((kb_r(), BValue::Dict(rd)));
            d.push((kb_t(), BValue::BString(tid)));
            let mut yv: Vec<u8> = Vec::new();
            yv.push(114);
            d.push((kb_y(), BValue::BString(yv)));
            proof {
                crate::bencode::lemma_bspec_dict_props(d@);
                assert(yv@ =~= seq![114u8]);
                assert(bspec_dict_seq(d@) =~= encode_krpc_spec(m@)->Dict_0);
            }
            BValue::Dict(d)
        },
        KRequest::Error(e) => {
            let mut l: Vec<BValue> = Vec::new();
            l.push(BValue::Number(e.0 as i64));
            l.push(BValue::BString(ascii_bytes_exec(&e.1)));
            proof {
                crate::bencode::lemma_bspec_list_props(l@);
                assert(bspec_list_seq(l@) =~= seq![
                    BSpec::Number(e.0 as i64),
                    BSpec::BString(ascii_bytes(e.1@)),
                ]);
            }
            let mut d: Vec<(Vec<u8>, BValue)> = Vec::new();
            d.push((kb_e(), BValue::List(l)));
            d.push((kb_t(), BValue::BString(tid)));
            let mut yv: Vec<u8> = Vec::new();
            yv.push(101);
            d.push((kb_y(), BValue::BString(yv)));
            proof {
                crate::bencode::lemma_bspec_dict_props(d@);
                assert(yv@ =~= seq![101u8]);
                assert(bspec_dict_seq(d@) =~= encode_krpc_spec(m@)->Dict_0);
            }
            BValue::Dict(d)
        },
    }
}

// ---- The codec round trip. ----

/// A message the encoder can be held to: identifiers are 20 bytes, compact
/// endpoints carry 4 address bytes, `implied_port` is a flag, contact lists
/// are non-empty (an empty list has no wire form and decodes to nothing),
/// contacts carry the observation time `now`, and error text is ASCII.
pub open spec fn wf_kmessage(m: KMessageModel, now: u64) -> bool {
    match m.request {
        KRequestModel::Query(q) => match q {
            QueryModel::Ping { id } => id.len() == HASH_LENGTH,
            QueryModel::FindNode { id, target } => id.len() == HASH_LENGTH && target.len()
                == HASH_LENGTH,
            QueryModel::GetPeers { id, info_hash } => id.len() == HASH_LENGTH && info_hash.len()
                == HASH_LENGTH,
            QueryModel::AnnouncePeer { id, info_hash, implied_port, port, token } => id.len()
                == HASH_LENGTH && info_hash.len() == HASH_LENGTH && (implied_port == 0
                || implied_port == 1),
        },
        KRequestModel::Response(b) => b.id.len() == HASH_LENGTH && match b.remote {
            None => true,
            Some(RemoteModel::Nodes(ns)) => ns.len() > 0 && forall|i: int|
                0 <= i < ns.len() ==> (#[trigger] ns[i]).id.len() == HASH_LENGTH
                    && ns[i].addr.ip.len() == 4 && ns[i].last_active == now,
            Some(RemoteModel::Peers(ps)) => ps.len() > 0 && forall|i: int|
                0 <= i < ps.len() ==> (#[trigger] ps[i]).ip.len() == 4,
        },
        KRequestModel::Error((c, msg)) => forall|i: int|
            0 <= i < msg.len() ==> ((#[trigger] msg[i]) as u32) < 128,
    }
}

/// The dictionary keys and method names are pairwise distinct.
proof fn lemma_keys_distinct()
    ensures
        k_a() != k_t() && k_q() != k_t() && k_r() != k_t() && k_e() != k_t(),
        k_a() != k_y() && k_q() != k_y() && k_t() != k_y() && k_r() != k_y() && k_e() != k_y(),
        k_a() != k_q(),
        k_id() != k_target() && k_id() != k_info_hash() && k_id() != k_port() && k_id()
            != k_implied_port() && k_id() != k_token() && k_id() != k_nodes() && k_id()
            != k_values(),
        k_implied_port() != k_info_hash() && k_implied_port() != k_port() && k_implied_port()
            != k_token(),
        k_info_hash() != k_port() && k_info_hash() != k_token(),
        k_port() != k_token(),
        k_nodes() != k_token() && k_nodes() != k_values() && k_token() != k_values(),
        m_ping() != m_find_node() && m_ping() != m_get_peers() && m_ping() != m_announce_peer(),
        m_find_node() != m_get_peers() && m_find_node() != m_announce_peer(),
        m_get_peers() != m_announce_peer(),
{
    assert(k_t()[0] == 116 && k_y()[0] == 121 && k_q()[0] == 113 && k_a()[0] == 97 && k_r()[0]
        == 114 && k_e()[0] == 101);
    assert(k_id().len() == 2 && k_target().len() == 6 && k_info_hash().len() == 9 && k_port().len()
        == 4 && k_implied_port().len() == 12 && k_token().len() == 5 && k_nodes().len() == 5
        && k_values().len() == 6);
    assert(k_token()[0] == 116 && k_nodes()[0] == 110);
    assert(k_values()[0] == 118 && k_target()[0] == 116);
    assert(m_ping().len() == 4 && m_find_node().len() == 9 && m_get_peers().len() == 9
        && m_announce_peer().len() == 13);
    assert(m_find_node()[0] == 102 && m_get_peers()[0] == 103);
}

/// Where a linear scan of a dictionary finds a key.
proof fn lemma_dict_get_at(d: Seq<(Seq<u8>, BSpec)>, k: Seq<u8>, i: int)
    requires
        0 <= i < d.len(),
        d[i].0 == k,
        forall|j: int| 0 <= j < i ==> (#[trigger] d[j]).0 != k,
    ensures
        dict_get(d, k) == Some(d[i].1),
    decreases i,
{
    if i > 0 {
        let t = d.drop_first();
        lemma_dict_get_at(t, k, i - 1);
    }
}

/// A key under none of the entries is not found.
proof fn lemma_dict_get_missing(d: Seq<(Seq<u8>, BSpec)>, k: Seq<u8>)
    requires
        forall|j: int| 0 <= j < d.len() ==> (#[trigger] d[j]).0 != k,
    ensures
        dict_get(d, k) is None,
    decreases d.len(),
{
    if d.len() > 0 {
        lemma_dict_get_missing(d.drop_first(), k);
    }
}

/// The compact encoding of a contact list: 26 bytes per contact, and each
/// 26-byte block is its contact's record.
proof fn lemma_compact_prefix_props(ns: Seq<NodeModel>, k: int)
    requires
        0 <= k <= ns.len(),
        forall|i: int|
            0 <= i < ns.len() ==> (#[trigger] ns[i]).id.len() == HASH_LENGTH && ns[i].addr.ip.len()
                == 4,
    ensures
        compact_nodes_prefix(ns, k).len() == 26 * k,
        forall|i: int|
            0 <= i < k ==> #[trigger] compact_nodes_prefix(ns, k).subrange(26 * i, 26 * i + 26)
                == compact_node(ns[i]),
    decreases k,
{
    if k > 0 {
        lemma_compact_prefix_props(ns, k - 1);
        let pre = compact_nodes_prefix(ns, k - 1);
        let cur = compact_nodes_prefix(ns, k);
        assert(compact_node(ns[k - 1]).len() == 26);
        assert forall|i: int| 0 <= i < k implies #[trigger] cur.subrange(26 * i, 26 * i + 26)
            == compact_node(ns[i]) by {
            if i < k - 1 {
                assert(cur.subrange(26 * i, 26 * i + 26) =~= pre.subrange(26 * i, 26 * i + 26));
            } else {
                assert(cur.subrange(26 * i, 26 * i + 26) =~= compact_node(ns[i]));
            }
        }
    }
}

/// Decoding the compact encoding of a contact list gives the list back.
proof fn lemma_nodes_round_trip(ns: Seq<NodeModel>, now: u64)
    requires
        forall|i: int|
            0 <= i < ns.len() ==> (#[trigger] ns[i]).id.len() == HASH_LENGTH && ns[i].addr.ip.len()
                == 4 && ns[i].last_active == now,
    ensures
        compact_nodes(ns).len() == 26 * ns.len(),
        compact_nodes(ns).len() % 26 == 0,
        nodes_of_bytes(compact_nodes(ns), now) == ns,
{
    let nb = compact_nodes(ns);
    lemma_compact_prefix_props(ns, ns.len() as int);
    assert(nb.len() == 26 * ns.len());
    assert(nb.len() % 26 == 0) by (nonlinear_arith)
        requires
            nb.len() == 26 * ns.len(),
    ;
    assert(nb.len() / 26 == ns.len()) by (nonlinear_arith)
        requires
            nb.len() == 26 * ns.len(),
    ;
    assert forall|i: int| 0 <= i < ns.len() implies #[trigger] nodes_of_bytes(nb, now)[i]
        == ns[i] by {
        let c = nb.subrange(26 * i, 26 * i + 26);
        assert(c == compact_node(ns[i]));
        let n = ns[i];
        assert(c.subrange(0, HASH_LENGTH as int) =~= n.id);
        assert(c.subrange(20, 24) =~= n.addr.ip);
        assert(c[24] == n.addr.port / 256 && c[25] == n.addr.port % 256);
        assert((c[24] * 256 + c[25]) as u16 == n.addr.port);
        assert(node_of_compact(c, now) == n);
    }
    assert(nodes_of_bytes(nb, now) =~= ns);
}

/// Decoding the list of compact endpoints gives the endpoints back.
proof fn lemma_peers_round_trip(ps: Seq<AddrModel>)
    requires
        forall|i: int| 0 <= i < ps.len() ==> (#[trigger] ps[i]).ip.len() == 4,
    ensures
        peers_of_list(peer_list_spec(ps)) == Some(ps),
    decreases ps.len(),
{
    let l = peer_list_spec(ps);
    if ps.len() == 0 {
        assert(l.len() == 0);
        assert(peers_of_list(l) == Some(Seq::<AddrModel>::empty()));
        assert(Seq::<AddrModel>::empty() =~= ps);
    } else {
        let b = compact_addr(ps[0]);
        assert(l[0] == BSpec::BString(b));
        assert(b.len() == 6);
        let pt = ps.drop_first();
        lemma_peers_round_trip(pt);
        assert(l.drop_first() =~= peer_list_spec(pt));
        assert(b.subrange(0, 4) =~= ps[0].ip);
        assert(b[4] == ps[0].port / 256 && b[5] == ps[0].port % 256);
        assert((b[4] * 256 + b[5]) as u16 == ps[0].port);
        assert(addr_of_compact(b) == ps[0]);
        assert(seq![addr_of_compact(b)] + pt =~= ps);
    }
}

/// The codec round trip for queries.
#[verifier::rlimit(60)]
#[verifier::spinoff_prover]
proof fn lemma_round_trip_query(tid: Seq<u8>, q: QueryModel, now: u64)
    requires
        wf_kmessage(
            KMessageModel { transaction_id: tid, request: KRequestModel::Query(q) },
            now,
        ),
    ensures
        parse_krpc_spec(
            encode_krpc_spec(KMessageModel { transaction_id: tid, request: KRequestModel::Query(q) }),
            now,
        ) == Ok::<KMessageModel, Seq<char>>(
            KMessageModel { transaction_id: tid, request: KRequestModel::Query(q) },
        ),
{
    lemma_keys_distinct();
    let m = KMessageModel { transaction_id: tid, request: KRequestModel::Query(q) };
    let args = args_spec(q);
    let d = seq![
        (k_a(), BSpec::Dict(args)),
        (k_q(), BSpec::BString(method_name(q))),
        (k_t(), BSpec::BString(tid)),
        (k_y(), BSpec::BString(seq![113u8])),
    ];
    assert(encode_krpc_spec(m) == BSpec::Dict(d));
    lemma_dict_get_at(d, k_t(), 2);
    lemma_dict_get_at(d, k_y(), 3);
    assert(seq![113u8].len() == 1 && seq![113u8][0] == 113);
    lemma_dict_get_at(d, k_q(), 1);
    lemma_dict_get_at(d, k_a(), 0);
    match q {
        QueryModel::Ping { id } => {
            lemma_dict_get_at(args, k_id(), 0);
        },
        QueryModel::FindNode { id, target } => {
            lemma_dict_get_at(args, k_id(), 0);
            lemma_dict_get_at(args, k_target(), 1);
        },
        QueryModel::GetPeers { id, info_hash } => {
            lemma_dict_get_at(args, k_id(), 0);
            lemma_dict_get_at(args, k_info_hash(), 1);
        },
        QueryModel::AnnouncePeer { id, info_hash, implied_port, port, token } => {
            lemma_dict_get_at(args, k_id(), 0);
            lemma_dict_get_at(args, k_implied_port(), 1);
            lemma_dict_get_at(args, k_info_hash(), 2);
            lemma_dict_get_at(args, k_port(), 3);
            lemma_dict_get_at(args, k_token(), 4);
        },
    }
}

/// The codec round trip for responses.
#[verifier::rlimit(100)]
#[verifier::spinoff_prover]
proof fn lemma_round_trip_response(tid: Seq<u8>, b: ResponseModel, now: u64)
    requires
        wf_kmessage(
            KMessageModel { transaction_id: tid, request: KRequestModel::Response(b) },
            now,
        ),
    ensures
        parse_krpc_spec(
            encode_krpc_spec(
                KMessageModel { transaction_id: tid, request: KRequestModel::Response(b) },
            ),
            now,
        ) == Ok::<KMessageModel, Seq<char>>(
            KMessageModel { transaction_id: tid, request: KRequestModel::Response(b) },
        ),
{
    lemma_keys_distinct();
    let m = KMessageModel { transaction_id: tid, request: KRequestModel::Response(b) };
    let rd = rdict_spec(b);
    let d = seq![
        (k_r(), BSpec::Dict(rd)),
        (k_t(), BSpec::BString(tid)),
        (k_y(), BSpec::BString(seq![114u8])),
    ];
    assert(encode_krpc_spec(m) == BSpec::Dict(d));
    lemma_dict_get_at(d, k_t(), 1);
    lemma_dict_get_at(d, k_y(), 2);
    assert(seq![114u8].len() == 1 && seq![114u8][0] == 114);
    lemma_dict_get_at(d, k_r(), 0);
    lemma_dict_get_at(rd, k_id(), 0);
    match (b.remote, b.token) {
        (None, None) => {
            lemma_dict_get_missing(rd, k_token());
            lemma_dict_get_missing(rd, k_values());
            lemma_dict_get_missing(rd, k_nodes());
        },
        (None, Some(t)) => {
            lemma_dict_get_at(rd, k_token(), 1);
            lemma_dict_get_missing(rd, k_values());
            lemma_dict_get_missing(rd, k_nodes());
        },
        (Some(RemoteModel::Nodes(ns)), None) => {
            lemma_dict_get_missing(rd, k_token());
            lemma_dict_get_missing(rd, k_values());
            lemma_dict_get_at(rd, k_nodes(), 1);
            lemma_nodes_round_trip(ns, now);
        },
        (Some(RemoteModel::Nodes(ns)), Some(t)) => {
            lemma_dict_get_at(rd, k_token(), 2);
            lemma_dict_get_missing(rd, k_values());
            lemma_dict_get_at(rd, k_nodes(), 1);
            lemma_nodes_round_trip(ns, now);
        },
        (Some(RemoteModel::Peers(ps)), None) => {
            lemma_dict_get_missing(rd, k_token());
            lemma_dict_get_at(rd, k_values(), 1);
            lemma_peers_round_trip(ps);
        },
        (Some(RemoteModel::Peers(ps)), Some(t)) => {
            lemma_dict_get_at(rd, k_token(), 1);
            lemma_dict_get_at(rd, k_values(), 2);
            lemma_peers_round_trip(ps);
        },
    }
}

/// The codec round trip for errors.
#[verifier::rlimit(60)]
#[verifier::spinoff_prover]
proof fn lemma_round_trip_error(tid: Seq<u8>, c: u32, msg: Seq<char>, now: u64)
    requires
        wf_kmessage(
            KMessageModel { transaction_id: tid, request: KRequestModel::Error((c, msg)) },
            now,
        ),
    ensures
        parse_krpc_spec(
            encode_krpc_spec(
                KMessageModel { transaction_id: tid, request: KRequestModel::Error((c, msg)) },
            ),
            now,
        ) == Ok::<KMessageModel, Seq<char>>(
            KMessageModel { transaction_id: tid, request: KRequestModel::Error((c, msg)) },
        ),
{
    lemma_keys_distinct();
    let m = KMessageModel { transaction_id: tid, request: KRequestModel::Error((c, msg)) };
    let l = seq![BSpec::Number(c as i64), BSpec::BString(ascii_bytes(msg))];
    let d = seq![
        (k_e(), BSpec::List(l)),
        (k_t(), BSpec::BString(tid)),
        (k_y(), BSpec::BString(seq![101u8])),
    ];
    assert(encode_krpc_spec(m) == BSpec::Dict(d));
    lemma_dict_get_at(d, k_t(), 1);
    lemma_dict_get_at(d, k_y(), 2);
    assert(seq![101u8].len() == 1 && seq![101u8][0] == 101);
    lemma_dict_get_at(d, k_e(), 0);
    let bs = ascii_bytes(msg);
    assert forall|i: int| 0 <= i < bs.len() implies (#[trigger] bs[i]) < 128 by {
        assert(bs[i] == ((msg[i] as u32) % 256) as u8);
    }
    let mapped = bs.map_values(|x: u8| (x as u32) as char);
    assert forall|i: int| 0 <= i < msg.len() implies #[trigger] mapped[i] == msg[i] by {
        let code = msg[i] as u32;
        assert(code < 128);
        assert(code % 256 == code);
        assert(bs[i] == code as u8);
        assert(bs[i] as u32 == code);
        vstd::utf8::char_u32_cast(msg[i], code);
        assert(mapped[i] == (bs[i] as u32) as char);
        assert(mapped[i] == msg[i]);
    }
    assert(mapped =~= msg);
}

/// Codec round trip: decoding an encoded well-formed message gives the
/// message back.
pub proof fn lemma_codec_round_trip(m: KMessageModel, now: u64)
    requires
        wf_kmessage(m, now),
    ensures
        parse_krpc_spec(encode_krpc_spec(m), now) == Ok::<KMessageModel, Seq<char>>(m),
{
    match m.request {
        KRequestModel::Query(q) => lemma_round_trip_query(m.transaction_id, q, now),
        KRequestModel::Response(b) => lemma_round_trip_response(m.transaction_id, b, now),
        KRequestModel::Error((c, msg)) => lemma_round_trip_error(m.transaction_id, c, msg, now),
    }
}

/// What decoding a whole datagram yields.
pub open spec fn parse_bytes_spec(bytes: Seq<u8>, now: u64) -> Result<KMessageModel, Seq<char>> {
    match crate::bencode::bdecode_spec(bytes) {
        None => Err("malformed bencode"@),
        Some(v) => parse_krpc_spec(v, now),
    }
}

/// Decode a datagram: bencode, then the message layer.
pub fn parse_message_bytes(bytes: &[u8], now: u64) -> (r: Result<KMessage, String>)
    ensures
        krpc_result_matches(r, parse_bytes_spec(bytes@, now)),
{
    match crate::bencode::bdecode(bytes) {
        Ok(v) => parse_krpc_message(&v, now),
        Err(e) => Err(e),
    }
}

/// Encode a message as a datagram: the message layer, then bencode.
pub fn encode_message_bytes(m: &KMessage) -> (r: Vec<u8>)
    ensures
        r@ == crate::bencode::bencode_bytes(encode_krpc_spec(m@)),
{
    let v = encode_krpc_message(m);
    crate::bencode::bencode_encode(&v)
}

} // verus!
