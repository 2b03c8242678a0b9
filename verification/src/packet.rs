//! On-wire netcode control packets and their codec.
//!
//! Every packet starts with a one-octet type tag. A `ConnectionRequest`
//! travels in a fixed plaintext layout (its private section is sealed under
//! the connect key with the extended nonce it carries). Every other variant
//! is authenticated: after the tag comes a prefix octet whose low three bits
//! hold the sequence octet count modulo eight — this implementation always
//! ships all eight octets, so the field is zero — then the sequence
//! (little-endian), then the body sealed under the session key with a
//! 16-octet tag, bound to the version tag, the protocol id and the type tag
//! as associated data.

use vstd::prelude::*;
use vstd::bytes::{
    spec_u64_to_le_bytes, u64_to_le_bytes, u64_from_le_bytes,
    spec_u32_to_le_bytes, u32_to_le_bytes, u32_from_le_bytes,
    lemma_auto_spec_u64_to_from_le_bytes, lemma_auto_spec_u32_to_from_le_bytes,
};
use vstd::slice::{slice_subrange, slice_to_vec, slice_index_get};
use crate::crypto::{sealed, chacha_seal, chacha_open};

verus! {

pub const NETCODE_KEY_BYTES: usize = 32;

pub const NETCODE_MAC_BYTES: usize = 16;

pub const NETCODE_USER_DATA_BYTES: usize = 256;

/// The 13-octet version tag every endpoint must present.
pub open spec fn version_info_spec() -> Seq<u8> {
    seq![78u8, 69u8, 84u8, 67u8, 79u8, 68u8, 69u8, 32u8, 49u8, 46u8, 48u8, 50u8, 0u8]
}

pub fn version_info() -> (r: Vec<u8>)
    ensures
        r@ == version_info_spec(),
{
    let r: Vec<u8> = vec![78u8, 69u8, 84u8, 67u8, 79u8, 68u8, 69u8, 32u8, 49u8, 46u8, 48u8, 50u8, 0u8];
    proof {
        assert(r@ =~= version_info_spec());
    }
    r
}

/// Errors of the codec, the token validator and the challenge exchange.
#[derive(Debug, Clone, Copy, PartialEq, Eq, Structural)]
pub enum NetcodeError {
    InvalidVersion,
    Expired,
    InvalidToken,
    NotInHostList,
    PacketTooSmall,
    InvalidPacket,
    NoKeyAvailable,
    CryptoError,
}

/// The public portion of a connect token, as it arrives on the wire.
#[derive(Debug)]
pub struct ConnectionRequest {
    pub version_info: Vec<u8>,
    pub protocol_id: u64,
    pub create_timestamp: u64,
    pub expire_timestamp: u64,
    pub xnonce: Vec<u8>,
    pub data: Vec<u8>,
}

/// A server-minted challenge: the sequence its nonce derives from and the
/// sealed `{client_id, user_data}` record.
#[derive(Debug)]
pub struct EncryptedChallengeToken {
    pub token_sequence: u64,
    pub token_data: Vec<u8>,
}

#[derive(Debug)]
pub struct ConnectionKeepAlive {
    pub max_clients: u32,
    pub client_index: u32,
}

/// Netcode control packets.
#[derive(Debug)]
pub enum Packet {
    ConnectionRequest(ConnectionRequest),
    ConnectionDenied,
    Challenge(EncryptedChallengeToken),
    Response(EncryptedChallengeToken),
    KeepAlive(ConnectionKeepAlive),
    Payload(Vec<u8>),
    Disconnect,
}

/// Mathematical view of a packet.
#[verifier::ext_equal]
pub enum PacketV {
    Request {
        version: Seq<u8>,
        protocol_id: u64,
        create: u64,
        expire: u64,
        xnonce: Seq<u8>,
        data: Seq<u8>,
    },
    Denied,
    Challenge { token_sequence: u64, token_data: Seq<u8> },
    Response { token_sequence: u64, token_data: Seq<u8> },
    KeepAlive { max_clients: u32, client_index: u32 },
    Payload { data: Seq<u8> },
    Disconnect,
}

impl View for Packet {
    type V = PacketV;

    open spec fn view(&self) -> PacketV {
        match self {
            Packet::ConnectionRequest(r) => PacketV::Request {
                version: r.version_info@,
                protocol_id: r.protocol_id,
                create: r.create_timestamp,
                expire: r.expire_timestamp,
                xnonce: r.xnonce@,
                data: r.data@,
            },
            Packet::ConnectionDenied => PacketV::Denied,
            Packet::Challenge(t) => PacketV::Challenge {
                token_sequence: t.token_sequence,
                token_data: t.token_data@,
            },
            Packet::Response(t) => PacketV::Response {
                token_sequence: t.token_sequence,
                token_data: t.token_data@,
            },
            Packet::KeepAlive(k) => PacketV::KeepAlive {
                max_clients: k.max_clients,
                client_index: k.client_index,
            },
            Packet::Payload(d) => PacketV::Payload { data: d@ },
            Packet::Disconnect => PacketV::Disconnect,
        }
    }
}

pub open spec fn tag_of(v: PacketV) -> u8 {
    match v {
        PacketV::Request { .. } => 0u8,
        PacketV::Denied => 1u8,
        PacketV::Challenge { .. } => 2u8,
        PacketV::Response { .. } => 3u8,
        PacketV::KeepAlive { .. } => 4u8,
        PacketV::Payload { .. } => 5u8,
        PacketV::Disconnect => 6u8,
    }
}

/// Plaintext body of an authenticated packet.
pub open spec fn body_of(v: PacketV) -> Seq<u8> {
    match v {
        PacketV::Request { .. } => Seq::empty(),
        PacketV::Denied => Seq::empty(),
        PacketV::Challenge { token_sequence, token_data } => spec_u64_to_le_bytes(token_sequence)
            + token_data,
        PacketV::Response { token_sequence, token_data } => spec_u64_to_le_bytes(token_sequence)
            + token_data,
        PacketV::KeepAlive { max_clients, client_index } => spec_u32_to_le_bytes(max_clients)
            + spec_u32_to_le_bytes(client_index),
        PacketV::Payload { data } => data,
        PacketV::Disconnect => Seq::empty(),
    }
}

/// The 12-octet nonce an authenticated packet's sequence number derives.
pub open spec fn nonce_of(sequence: u64) -> Seq<u8> {
    spec_u64_to_le_bytes(sequence) + seq![0u8, 0u8, 0u8, 0u8]
}

/// Associated data of an authenticated packet: version tag, protocol id,
/// type tag.
pub open spec fn packet_aad(protocol_id: u64, tag: u8) -> Seq<u8> {
    version_info_spec() + spec_u64_to_le_bytes(protocol_id) + seq![tag]
}

/// The fixed plaintext layout of a connection request.
pub open spec fn request_bytes(v: PacketV) -> Seq<u8>
    recommends
        v is Request,
{
    match v {
        PacketV::Request { version, protocol_id, create, expire, xnonce, data } => seq![0u8]
            + version + spec_u64_to_le_bytes(protocol_id) + spec_u64_to_le_bytes(create)
            + spec_u64_to_le_bytes(expire) + xnonce + data,
        _ => Seq::empty(),
    }
}

/// A view is well formed when its fixed-size fields have their wire lengths.
pub open spec fn view_wf(v: PacketV) -> bool {
    match v {
        PacketV::Request { version, xnonce, .. } => version.len() == 13 && xnonce.len() == 24,
        _ => true,
    }
}

/// The whole on-wire form of a packet.
pub open spec fn spec_encode(v: PacketV, protocol_id: u64, sequence: u64, key: Seq<u8>) -> Seq<
    u8,
> {
    if v is Request {
        request_bytes(v)
    } else {
        seq![tag_of(v), 0u8] + spec_u64_to_le_bytes(sequence) + sealed(
            key,
            nonce_of(sequence),
            packet_aad(protocol_id, tag_of(v)),
            body_of(v),
        )
    }
}

fn nonce_bytes(sequence: u64) -> (r: Vec<u8>)
    ensures
        r@ == nonce_of(sequence),
        r@.len() == 12,
{
    proof {
        lemma_auto_spec_u64_to_from_le_bytes();
    }
    let mut r = u64_to_le_bytes(sequence);
    r.push(0u8);
    r.push(0u8);
    r.push(0u8);
    r.push(0u8);
    proof {
        assert(r@ =~= nonce_of(sequence));
    }
    r
}

fn packet_aad_bytes(protocol_id: u64, tag: u8) -> (r: Vec<u8>)
    ensures
        r@ == packet_aad(protocol_id, tag),
{
    proof {
        lemma_auto_spec_u64_to_from_le_bytes();
    }
    let mut r = version_info();
    let mut p = u64_to_le_bytes(protocol_id);
    r.append(&mut p);
    r.push(tag);
    proof {
        assert(r@ =~= packet_aad(protocol_id, tag));
    }
    r
}

impl Packet {
    /// Body octets of an authenticated variant.
    fn body_bytes(&self) -> (r: Vec<u8>)
        ensures
            r@ == body_of(self@),
    {
        proof {
            lemma_auto_spec_u64_to_from_le_bytes();
            lemma_auto_spec_u32_to_from_le_bytes();
        }
        match self {
            Packet::ConnectionRequest(_) => Vec::new(),
            Packet::ConnectionDenied => Vec::new(),
            Packet::Challenge(t) => {
                let mut r = u64_to_le_bytes(t.token_sequence);
                let mut d = slice_to_vec(t.token_data.as_slice());
                r.append(&mut d);
                proof {
                    assert(r@ =~= body_of(self@));
                }
                r
            },
            Packet::Response(t) => {
                let mut r = u64_to_le_bytes(t.token_sequence);
                let mut d = slice_to_vec(t.token_data.as_slice());
                r.append(&mut d);
                proof {
                    assert(r@ =~= body_of(self@));
                }
                r
            },
            Packet::KeepAlive(k) => {
                let mut r = u32_to_le_bytes(k.max_clients);
                let mut c = u32_to_le_bytes(k.client_index);
                r.append(&mut c);
                proof {
                    assert(r@ =~= body_of(self@));
                }
                r
            },
            Packet::Payload(d) => {
                let r = slice_to_vec(d.as_slice());
                r
            },
            Packet::Disconnect => Vec::new(),
        }
    }

    /// Encode the packet. A connection request needs no session key; every
    /// other variant is sealed under the given sequence number and key.
    pub fn encode(&self, protocol_id: u64, crypto: Option<(u64, &[u8])>) -> (r: Result<
        Vec<u8>,
        NetcodeError,
    >)
        requires
            crypto is Some ==> crypto.unwrap().1@.len() == 32,
        ensures
            self@ is Request ==> r is Ok && r.unwrap()@ == request_bytes(self@),
            self@ is Request && view_wf(self@) ==> r is Ok && r.unwrap()@.len() == 62 + (
            self@->Request_data).len(),
            !(self@ is Request) && crypto is None ==> r == Result::<Vec<u8>, NetcodeError>::Err(
                NetcodeError::NoKeyAvailable,
            ),
            !(self@ is Request) && crypto is Some ==> {
                &&& body_of(self@).len() < 0x3FFFFFFFC0 ==> r is Ok
                &&& r is Ok ==> r.unwrap()@ == spec_encode(
                    self@,
                    protocol_id,
                    crypto.unwrap().0,
                    crypto.unwrap().1@,
                ) && r.unwrap()@.len() == 10 + body_of(self@).len() + 16
                &&& r is Err ==> r == Result::<Vec<u8>, NetcodeError>::Err(
                    NetcodeError::CryptoError,
                )
            },
    {
        proof {
            lemma_auto_spec_u64_to_from_le_bytes();
        }
        match self {
            Packet::ConnectionRequest(req) => {
                let mut out: Vec<u8> = Vec::new();
                out.push(0u8);
                let mut f = slice_to_vec(req.version_info.as_slice());
                out.append(&mut f);
                let mut f = u64_to_le_bytes(req.protocol_id);
                out.append(&mut f);
                let mut f = u64_to_le_bytes(req.create_timestamp);
                out.append(&mut f);
                let mut f = u64_to_le_bytes(req.expire_timestamp);
                out.append(&mut f);
                let mut f = slice_to_vec(req.xnonce.as_slice());
                out.append(&mut f);
                let mut f = slice_to_vec(req.data.as_slice());
                out.append(&mut f);
                proof {
                    assert(out@ =~= request_bytes(self@));
                }
                Ok(out)
            },
            _ => {
                let (sequence, key) = match crypto {
                    None => {
                        return Err(NetcodeError::NoKeyAvailable);
                    },
                    Some(c) => c,
                };
                let tag = self.tag();
                let body = self.body_bytes();
                let nonce = nonce_bytes(sequence);
                let aad = packet_aad_bytes(protocol_id, tag);
                let ct = match chacha_seal(key, nonce.as_slice(), aad.as_slice(), body.as_slice())
                    {
                    Err(_) => {
                        return Err(NetcodeError::CryptoError);
                    },
                    Ok(ct) => ct,
                };
                let mut out: Vec<u8> = Vec::new();
                out.push(tag);
                out.push(0u8);
                let mut f = u64_to_le_bytes(sequence);
                out.append(&mut f);
                let mut c = ct;
                out.append(&mut c);
                proof {
                    assert(out@ =~= spec_encode(self@, protocol_id, sequence, key@));
                }
                Ok(out)
            },
        }
    }

    /// The packet's one-octet type tag.
    pub fn tag(&self) -> (r: u8)
        ensures
            r == tag_of(self@),
    {
        match self {
            Packet::ConnectionRequest(_) => 0,
            Packet::ConnectionDenied => 1,
            Packet::Challenge(_) => 2,
            Packet::Response(_) => 3,
            Packet::KeepAlive(_) => 4,
            Packet::Payload(_) => 5,
            Packet::Disconnect => 6,
        }
    }

    /// Decode a packet. Without a key only a connection request can come
    /// back; with one, the sealed body is opened and parsed. Decoding
    /// inverts `spec_encode` on every variant.
    pub fn decode(buffer: &[u8], protocol_id: u64, key: Option<&[u8]>) -> (r: Result<
        (u64, Packet),
        NetcodeError,
    >)
        requires
            key is Some ==> key.unwrap()@.len() == 32,
        ensures
            buffer@.len() <= 2 + NETCODE_MAC_BYTES ==> r == Result::<
                (u64, Packet),
                NetcodeError,
            >::Err(NetcodeError::PacketTooSmall),
            forall|v: PacketV|
                #![trigger request_bytes(v)]
                view_wf(v) && v is Request && buffer@ == request_bytes(v) && buffer@.len() > 2
                    + NETCODE_MAC_BYTES ==> r is Ok && r.unwrap().1@ == v && r.unwrap().0 == 0,
            key is Some ==> forall|v: PacketV, sq: u64|
                #![trigger spec_encode(v, protocol_id, sq, key.unwrap()@)]
                !(v is Request) && buffer@ == spec_encode(v, protocol_id, sq, key.unwrap()@)
                    && buffer@.len() > 2 + NETCODE_MAC_BYTES ==> r is Ok && r.unwrap().1@ == v
                    && r.unwrap().0 == sq,
            key is None && buffer@.len() > 2 + NETCODE_MAC_BYTES && buffer@[0] != 0 ==> r
                == Result::<(u64, Packet), NetcodeError>::Err(NetcodeError::NoKeyAvailable),
    {
        proof {
            lemma_auto_spec_u64_to_from_le_bytes();
            lemma_auto_spec_u32_to_from_le_bytes();
        }
        if buffer.len() <= 2 + NETCODE_MAC_BYTES {
            return Err(NetcodeError::PacketTooSmall);
        }
        let tag = *slice_index_get(buffer, 0);
        proof {
            assert forall|v: PacketV|
                view_wf(v) && v is Request && buffer@ == request_bytes(v) implies buffer@[0] == 0
                && buffer@.len() >= 62 by {
                lemma_request_bytes_fields(v);
            }
        }
        if tag == 0 {
            if buffer.len() < 62 {
                return Err(NetcodeError::InvalidPacket);
            }
            let version_info = slice_to_vec(slice_subrange(buffer, 1, 14));
            let protocol = u64_from_le_bytes(slice_subrange(buffer, 14, 22));
            let create_timestamp = u64_from_le_bytes(slice_subrange(buffer, 22, 30));
            let expire_timestamp = u64_from_le_bytes(slice_subrange(buffer, 30, 38));
            let xnonce = slice_to_vec(slice_subrange(buffer, 38, 62));
            let data = slice_to_vec(slice_subrange(buffer, 62, buffer.len()));
            let packet = Packet::ConnectionRequest(
                ConnectionRequest {
                    version_info,
                    protocol_id: protocol,
                    create_timestamp,
                    expire_timestamp,
                    xnonce,
                    data,
                },
            );
            proof {
                assert forall|v: PacketV|
                    view_wf(v) && v is Request && buffer@ == request_bytes(v) implies packet@
                    =~= v by {
                    lemma_request_bytes_fields(v);
                }
            }
            return Ok((0, packet));
        }
        let key = match key {
            None => {
                return Err(NetcodeError::NoKeyAvailable);
            },
            Some(k) => k,
        };
        proof {
            assert forall|v: PacketV, sq: u64|
                !(v is Request) && buffer@ == spec_encode(v, protocol_id, sq, key@) implies
                buffer@[0] == tag_of(v) && buffer@[1] == 0 && buffer@.subrange(2, 10)
                    == spec_u64_to_le_bytes(sq) && buffer@.subrange(10, buffer@.len() as int)
                    == sealed(
                    key@,
                    nonce_of(sq),
                    packet_aad(protocol_id, tag_of(v)),
                    body_of(v),
                ) by {
                lemma_spec_encode_fields(v, protocol_id, sq, key@);
            }
        }
        let prefix = *slice_index_get(buffer, 1);
        if prefix != 0 {
            return Err(NetcodeError::InvalidPacket);
        }
        let sequence = u64_from_le_bytes(slice_subrange(buffer, 2, 10));
        let nonce = nonce_bytes(sequence);
        let aad = packet_aad_bytes(protocol_id, tag);
        let ct = slice_subrange(buffer, 10, buffer.len());
        let body = match chacha_open(key, nonce.as_slice(), aad.as_slice(), ct) {
            Err(_) => {
                return Err(NetcodeError::CryptoError);
            },
            Ok(b) => b,
        };
        if tag == 1 {
            return Ok((sequence, Packet::ConnectionDenied));
        }
        if tag == 6 {
            return Ok((sequence, Packet::Disconnect));
        }
        if tag == 5 {
            let packet = Packet::Payload(body);
            return Ok((sequence, packet));
        }
        if tag == 4 {
            if body.len() < 8 {
                return Err(NetcodeError::InvalidPacket);
            }
            let max_clients = u32_from_le_bytes(slice_subrange(body.as_slice(), 0, 4));
            let client_index = u32_from_le_bytes(slice_subrange(body.as_slice(), 4, 8));
            proof {
                assert forall|v: PacketV, sq: u64|
                    !(v is Request) && buffer@ == spec_encode(v, protocol_id, sq, key@) implies (
                match v {
                    PacketV::KeepAlive { max_clients: m, client_index: c } => body@.subrange(0, 4)
                        == spec_u32_to_le_bytes(m) && body@.subrange(4, 8) == spec_u32_to_le_bytes(
                        c,
                    ),
                    _ => true,
                }) by {
                    if v is KeepAlive {
                        assert(body@.subrange(0, 4) =~= spec_u32_to_le_bytes(v->KeepAlive_max_clients));
                        assert(body@.subrange(4, 8) =~= spec_u32_to_le_bytes(v->KeepAlive_client_index));
                    }
                }
            }
            return Ok((
                sequence,
                Packet::KeepAlive(ConnectionKeepAlive { max_clients, client_index }),
            ));
        }
        if tag == 2 || tag == 3 {
            if body.len() < 8 {
                return Err(NetcodeError::InvalidPacket);
            }
            let token_sequence = u64_from_le_bytes(slice_subrange(body.as_slice(), 0, 8));
            let token_data = slice_to_vec(slice_subrange(body.as_slice(), 8, body.len()));
            proof {
                assert forall|v: PacketV, sq: u64|
                    !(v is Request) && buffer@ == spec_encode(v, protocol_id, sq, key@) implies (
                match v {
                    PacketV::Challenge { token_sequence: t, token_data: d } => body@.subrange(0, 8)
                        == spec_u64_to_le_bytes(t) && body@.subrange(8, body@.len() as int) == d,
                    PacketV::Response { token_sequence: t, token_data: d } => body@.subrange(0, 8)
                        == spec_u64_to_le_bytes(t) && body@.subrange(8, body@.len() as int) == d,
                    _ => true,
                }) by {
                    match v {
                        PacketV::Challenge { token_sequence: t, token_data: d } => {
                            assert(body@.subrange(0, 8) =~= spec_u64_to_le_bytes(t));
                            assert(body@.subrange(8, body@.len() as int) =~= d);
                        },
                        PacketV::Response { token_sequence: t, token_data: d } => {
                            assert(body@.subrange(0, 8) =~= spec_u64_to_le_bytes(t));
                            assert(body@.subrange(8, body@.len() as int) =~= d);
                        },
                        _ => {},
                    }
                }
            }
            let token = EncryptedChallengeToken { token_sequence, token_data };
            if tag == 2 {
                return Ok((sequence, Packet::Challenge(token)));
            } else {
                return Ok((sequence, Packet::Response(token)));
            }
        }
        Err(NetcodeError::InvalidPacket)
    }
}

/// Field offsets of the fixed connection-request layout.
proof fn lemma_request_bytes_fields(v: PacketV)
    requires
        v is Request,
        view_wf(v),
    ensures
        request_bytes(v).len() == 62 + (v->Request_data).len(),
        request_bytes(v)[0] == 0,
        request_bytes(v).subrange(1, 14) == v->Request_version,
        request_bytes(v).subrange(14, 22) == spec_u64_to_le_bytes(v->Request_protocol_id),
        request_bytes(v).subrange(22, 30) == spec_u64_to_le_bytes(v->Request_create),
        request_bytes(v).subrange(30, 38) == spec_u64_to_le_bytes(v->Request_expire),
        request_bytes(v).subrange(38, 62) == v->Request_xnonce,
        request_bytes(v).subrange(62, request_bytes(v).len() as int) == v->Request_data,
{
    lemma_auto_spec_u64_to_from_le_bytes();
    let b = request_bytes(v);
    assert(b.subrange(1, 14) =~= v->Request_version);
    assert(b.subrange(14, 22) =~= spec_u64_to_le_bytes(v->Request_protocol_id));
    assert(b.subrange(22, 30) =~= spec_u64_to_le_bytes(v->Request_create));
    assert(b.subrange(30, 38) =~= spec_u64_to_le_bytes(v->Request_expire));
    assert(b.subrange(38, 62) =~= v->Request_xnonce);
    assert(b.subrange(62, b.len() as int) =~= v->Request_data);
}

/// Field offsets of an authenticated packet's frame.
proof fn lemma_spec_encode_fields(v: PacketV, protocol_id: u64, sq: u64, key: Seq<u8>)
    requires
        !(v is Request),
    ensures
        spec_encode(v, protocol_id, sq, key).len() == 10 + sealed(
            key,
            nonce_of(sq),
            packet_aad(protocol_id, tag_of(v)),
            body_of(v),
        ).len(),
        spec_encode(v, protocol_id, sq, key)[0] == tag_of(v),
        spec_encode(v, protocol_id, sq, key)[1] == 0,
        spec_encode(v, protocol_id, sq, key).subrange(2, 10) == spec_u64_to_le_bytes(sq),
        spec_encode(v, protocol_id, sq, key).subrange(
            10,
            spec_encode(v, protocol_id, sq, key).len() as int,
        ) == sealed(key, nonce_of(sq), packet_aad(protocol_id, tag_of(v)), body_of(v)),
{
    lemma_auto_spec_u64_to_from_le_bytes();
    let b = spec_encode(v, protocol_id, sq, key);
    assert(b.subrange(2, 10) =~= spec_u64_to_le_bytes(sq));
    assert(b.subrange(10, b.len() as int) =~= sealed(
        key,
        nonce_of(sq),
        packet_aad(protocol_id, tag_of(v)),
        body_of(v),
    ));
}

/// Plaintext of a challenge token: the client id and its 256 octets of user
/// data.
pub open spec fn challenge_bytes(client_id: u64, user_data: Seq<u8>) -> Seq<u8> {
    spec_u64_to_le_bytes(client_id) + user_data
}

impl EncryptedChallengeToken {
    /// Seal `{client_id, user_data}` under the server's challenge key with
    /// the nonce the sequence derives.
    pub fn generate(client_id: u64, user_data: &[u8], sequence: u64, key: &[u8]) -> (r: Result<
        EncryptedChallengeToken,
        NetcodeError,
    >)
        requires
            key@.len() == 32,
            user_data@.len() == 256,
        ensures
            r is Ok,
            r is Ok ==> r.unwrap().token_sequence == sequence && r.unwrap().token_data@ == sealed(
                key@,
                nonce_of(sequence),
                Seq::<u8>::empty(),
                challenge_bytes(client_id, user_data@),
            ),
            r is Err ==> r == Result::<EncryptedChallengeToken, NetcodeError>::Err(
                NetcodeError::CryptoError,
            ),
    {
        proof {
            lemma_auto_spec_u64_to_from_le_bytes();
        }
        let mut pt = u64_to_le_bytes(client_id);
        let mut d = slice_to_vec(user_data);
        pt.append(&mut d);
        proof {
            assert(pt@ =~= challenge_bytes(client_id, user_data@));
        }
        let nonce = nonce_bytes(sequence);
        let empty_aad: Vec<u8> = Vec::new();
        match chacha_seal(key, nonce.as_slice(), empty_aad.as_slice(), pt.as_slice()) {
            Ok(token_data) => {
                proof {
                    assert(empty_aad@ =~= Seq::<u8>::empty());
                }
                Ok(EncryptedChallengeToken { token_sequence: sequence, token_data })
            },
            Err(_) => Err(NetcodeError::CryptoError),
        }
    }

    /// Open a challenge token and read back the client id and user data.
    /// Inverts `generate` under the same key.
    pub fn decode(&self, key: &[u8]) -> (r: Result<(u64, Vec<u8>), NetcodeError>)
        requires
            key@.len() == 32,
        ensures
            forall|client_id: u64, user_data: Seq<u8>|
                self.token_data@ == sealed(
                    key@,
                    nonce_of(self.token_sequence),
                    Seq::<u8>::empty(),
                    #[trigger] challenge_bytes(client_id, user_data),
                ) ==> r is Ok && r.unwrap().0 == client_id && r.unwrap().1@ == user_data,
    {
        proof {
            lemma_auto_spec_u64_to_from_le_bytes();
        }
        let nonce = nonce_bytes(self.token_sequence);
        let empty_aad: Vec<u8> = Vec::new();
        proof {
            assert(empty_aad@ =~= Seq::<u8>::empty());
        }
        let pt = match chacha_open(
            key,
            nonce.as_slice(),
            empty_aad.as_slice(),
            self.token_data.as_slice(),
        ) {
            Ok(pt) => pt,
            Err(_) => {
                return Err(NetcodeError::CryptoError);
            },
        };
        if pt.len() < 8 {
            return Err(NetcodeError::InvalidPacket);
        }
        let client_id = u64_from_le_bytes(slice_subrange(pt.as_slice(), 0, 8));
        let user_data = slice_to_vec(slice_subrange(pt.as_slice(), 8, pt.len()));
        proof {
            assert forall|cid: u64, ud: Seq<u8>|
                self.token_data@ == sealed(
                    key@,
                    nonce_of(self.token_sequence),
                    Seq::<u8>::empty(),
                    #[trigger] challenge_bytes(cid, ud),
                ) implies client_id == cid && user_data@ == ud by {
                assert(pt@.subrange(0, 8) =~= spec_u64_to_le_bytes(cid));
                assert(pt@.subrange(8, pt@.len() as int) =~= ud);
            }
        }
        Ok((client_id, user_data))
    }
}

} // verus!
