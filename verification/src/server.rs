//! Server-side secure-session state machine.
//!
//! The server validates connect tokens, runs the challenge–response
//! handshake, assigns connected clients to stable slots, polices liveness
//! timeouts, and reaps pending handshakes whose token window lapsed. Wall
//! time (Unix seconds, for token expiry only) and session time (milliseconds,
//! advanced by `update`) are handed in by the caller; any decode or
//! validation failure is swallowed so that the server never answers a probe.

use vstd::prelude::*;
use vstd::array::array_as_slice;
use crate::crypto::{sealed, xsealed, generate_random_bytes};
use crate::packet::{
    Packet, PacketV, ConnectionRequest, EncryptedChallengeToken, ConnectionKeepAlive,
    NetcodeError, NETCODE_KEY_BYTES, NETCODE_MAC_BYTES, version_info, version_info_spec,
    spec_encode, nonce_of, challenge_bytes, request_bytes, view_wf, body_of,
};
use crate::token::{NetAddr, PrivateConnectToken, TokenV, token_wf, token_aad, private_token_bytes};

verus! {

/// Where a connection stands in its lifecycle.
#[derive(Debug, Clone, Copy, PartialEq, Eq, Structural)]
pub enum ConnectionState {
    Disconnected,
    PendingResponse,
    TimedOut,
    Connected,
}

/// Per-client record, both while pending and once connected. Times are in
/// milliseconds of session time; timestamps are Unix seconds from the token.
#[derive(Debug)]
pub struct Connection {
    pub client_id: u64,
    pub state: ConnectionState,
    pub send_key: Vec<u8>,
    pub receive_key: Vec<u8>,
    pub addr: NetAddr,
    pub last_packet_received_time: u64,
    pub last_packet_send_time: Option<u64>,
    pub timeout_seconds: i32,
    pub sequence: u64,
    pub expire_timestamp: u64,
    pub create_timestamp: u64,
    pub connect_start_time: u64,
}

/// Lifecycle events the embedder drains.
#[derive(Debug, PartialEq, Eq, Structural)]
pub enum ServerEvent {
    ClientConnected(u64),
    ClientDisconnected(u64),
}

/// What handling one datagram produced.
#[derive(Debug)]
pub enum ServerResult {
    NoResponse,
    PacketToSend(Packet),
    Payload(Vec<u8>),
}

/// The session server.
pub struct Server {
    clients: Vec<Option<Connection>>,
    pending_clients: Vec<Connection>,
    protocol_id: u64,
    connect_key: Vec<u8>,
    max_clients: usize,
    challenge_sequence: u64,
    challenge_key: Vec<u8>,
    address: NetAddr,
    current_time: u64,
    events: Vec<ServerEvent>,
}

/// First occupied slot holding `addr`, or -1.
pub open spec fn find_addr(c: Seq<Option<Connection>>, addr: NetAddr) -> int
    decreases c.len(),
{
    if c.len() == 0 {
        -1
    } else if c[0] is Some && c[0].unwrap().addr == addr {
        0
    } else {
        let r = find_addr(c.drop_first(), addr);
        if r == -1 {
            -1
        } else {
            r + 1
        }
    }
}

/// First occupied slot holding `client_id`, or -1.
pub open spec fn find_id(c: Seq<Option<Connection>>, id: u64) -> int
    decreases c.len(),
{
    if c.len() == 0 {
        -1
    } else if c[0] is Some && c[0].unwrap().client_id == id {
        0
    } else {
        let r = find_id(c.drop_first(), id);
        if r == -1 {
            -1
        } else {
            r + 1
        }
    }
}

/// First empty slot, or -1.
pub open spec fn first_free_slot(c: Seq<Option<Connection>>) -> int
    decreases c.len(),
{
    if c.len() == 0 {
        -1
    } else if c[0] is None {
        0
    } else {
        let r = first_free_slot(c.drop_first());
        if r == -1 {
            -1
        } else {
            r + 1
        }
    }
}

/// First pending record for `addr`, or -1.
pub open spec fn pending_index(p: Seq<Connection>, addr: NetAddr) -> int
    decreases p.len(),
{
    if p.len() == 0 {
        -1
    } else if p[0].addr == addr {
        0
    } else {
        let r = pending_index(p.drop_first(), addr);
        if r == -1 {
            -1
        } else {
            r + 1
        }
    }
}


/// What one run of the handshake does, as a relation between the state it
/// read (`clients`, `pending0`, `seq0`, the keys, the clock `t`) and the
/// pending table and challenge sequence it left (`pending1`, `seq1`), with
/// the reply `r`. The request arrives as its wire fields; its private data
/// is quantified over every token the connect key could have sealed.
pub open spec fn handshake_post(
    clients: Seq<Option<Connection>>,
    pending0: Seq<Connection>,
    seq0: u64,
    connect_key: Seq<u8>,
    challenge_key: Seq<u8>,
    protocol_id: u64,
    address: NetAddr,
    t: u64,
    addr: NetAddr,
    version: Seq<u8>,
    create: u64,
    expire: u64,
    xnonce: Seq<u8>,
    data: Seq<u8>,
    now_secs: u64,
    pending1: Seq<Connection>,
    seq1: u64,
    r: Result<ServerResult, NetcodeError>,
) -> bool {
    &&& (version != version_info_spec() ==> r == Result::<ServerResult, NetcodeError>::Err(
        NetcodeError::InvalidVersion,
    ) && pending1 == pending0 && seq1 == seq0)
    &&& (version == version_info_spec() && now_secs > expire ==> r == Result::<
        ServerResult,
        NetcodeError,
    >::Err(NetcodeError::Expired) && pending1 == pending0 && seq1 == seq0)
    &&& (version == version_info_spec() && now_secs <= expire && xnonce.len() != 24 ==> r
        == Result::<ServerResult, NetcodeError>::Err(NetcodeError::InvalidToken) && pending1
        == pending0 && seq1 == seq0)
    &&& (version == version_info_spec() && now_secs <= expire && xnonce.len() == 24 && (forall|
        pt: Seq<u8>,
    |
        data != xsealed(connect_key, xnonce, token_aad(protocol_id, expire), pt)) ==> r
        == Result::<ServerResult, NetcodeError>::Err(NetcodeError::InvalidToken) && pending1
        == pending0 && seq1 == seq0)
    &&& (forall|v: TokenV|
        #![auto]
        token_wf(v) && version == version_info_spec() && now_secs <= expire && xnonce.len() == 24
            && data == xsealed(
            connect_key,
            xnonce,
            token_aad(protocol_id, expire),
            private_token_bytes(v),
        ) ==> {
            if !v.server_addresses.contains(address) {
                r == Result::<ServerResult, NetcodeError>::Err(NetcodeError::NotInHostList)
                    && pending1 == pending0 && seq1 == seq0
            } else if find_addr(clients, addr) >= 0 || find_id(clients, v.client_id) >= 0 {
                &&& r is Ok
                &&& r.unwrap() is NoResponse
                &&& pending1 == pending0
                &&& seq1 == seq0
            } else if first_free_slot(clients) == -1 {
                &&& r is Ok
                &&& r.unwrap() is PacketToSend
                &&& r.unwrap()->PacketToSend_0 is ConnectionDenied
                &&& seq1 == seq0
                &&& pending1 == (if pending_index(pending0, addr) >= 0 {
                    pending0.remove(pending_index(pending0, addr))
                } else {
                    pending0
                })
            } else {
                &&& seq1 == (seq0 + 1) as u64
                &&& (if pending_index(pending0, addr) >= 0 {
                    pending1 == pending0
                } else {
                    &&& pending1.len() == pending0.len() + 1
                    &&& pending1.take(pending0.len() as int) == pending0
                    &&& ({
                        let c = pending1.last();
                        &&& c.client_id == v.client_id
                        &&& c.addr == addr
                        &&& c.state == ConnectionState::PendingResponse
                        &&& c.send_key@ == v.server_to_client_key
                        &&& c.receive_key@ == v.client_to_server_key
                        &&& c.timeout_seconds == v.timeout_seconds
                        &&& c.sequence == 0
                        &&& c.last_packet_received_time == t
                        &&& c.last_packet_send_time == Some(t)
                        &&& c.connect_start_time == t
                        &&& c.expire_timestamp == expire
                        &&& c.create_timestamp == create
                    })
                })
                &&& (match r {
                    Ok(ServerResult::PacketToSend(Packet::Challenge(tok))) => {
                        &&& tok.token_sequence == (seq0 + 1) as u64
                        &&& tok.token_data@ == sealed(
                            challenge_key,
                            nonce_of((seq0 + 1) as u64),
                            Seq::<u8>::empty(),
                            challenge_bytes(v.client_id, v.user_data),
                        )
                    },
                    _ => false,
                })
            }
        })
}


/// Indices of the occupied slots, in order.
pub open spec fn occupied_slots(c: Seq<Option<Connection>>) -> Seq<usize>
    decreases c.len(),
{
    if c.len() == 0 {
        Seq::empty()
    } else {
        occupied_slots(c.drop_last()) + (if c.last() is Some {
            seq![(c.len() - 1) as usize]
        } else {
            Seq::empty()
        })
    }
}

/// Client ids of the occupied slots, in slot order.
pub open spec fn occupied_ids(c: Seq<Option<Connection>>) -> Seq<u64>
    decreases c.len(),
{
    if c.len() == 0 {
        Seq::empty()
    } else {
        occupied_ids(c.drop_last()) + (match c.last() {
            Some(conn) => seq![conn.client_id],
            None => Seq::empty(),
        })
    }
}


/// `handshake_post`, seen through `process_packet`'s swallowing of errors:
/// every validation failure answers nothing, and the state part is the same.
pub open spec fn handshake_reply(
    clients: Seq<Option<Connection>>,
    pending0: Seq<Connection>,
    seq0: u64,
    connect_key: Seq<u8>,
    challenge_key: Seq<u8>,
    protocol_id: u64,
    address: NetAddr,
    t: u64,
    addr: NetAddr,
    version: Seq<u8>,
    create: u64,
    expire: u64,
    xnonce: Seq<u8>,
    data: Seq<u8>,
    now_secs: u64,
    pending1: Seq<Connection>,
    seq1: u64,
    r: ServerResult,
) -> bool {
    &&& (version != version_info_spec() ==> r is NoResponse && pending1 == pending0 && seq1
        == seq0)
    &&& (version == version_info_spec() && now_secs > expire ==> r is NoResponse && pending1
        == pending0 && seq1 == seq0)
    &&& (version == version_info_spec() && now_secs <= expire && xnonce.len() != 24 ==> r
        is NoResponse && pending1 == pending0 && seq1 == seq0)
    &&& (version == version_info_spec() && now_secs <= expire && xnonce.len() == 24 && (forall|
        pt: Seq<u8>,
    |
        data != xsealed(connect_key, xnonce, token_aad(protocol_id, expire), pt)) ==> r
        is NoResponse && pending1 == pending0 && seq1 == seq0)
    &&& (forall|v: TokenV|
        #![auto]
        token_wf(v) && version == version_info_spec() && now_secs <= expire && xnonce.len() == 24
            && data == xsealed(
            connect_key,
            xnonce,
            token_aad(protocol_id, expire),
            private_token_bytes(v),
        ) ==> {
            if !v.server_addresses.contains(address) {
                r is NoResponse && pending1 == pending0 && seq1 == seq0
            } else if find_addr(clients, addr) >= 0 || find_id(clients, v.client_id) >= 0 {
                &&& r is NoResponse
                &&& pending1 == pending0
                &&& seq1 == seq0
            } else if first_free_slot(clients) == -1 {
                &&& r is PacketToSend
                &&& r->PacketToSend_0 is ConnectionDenied
                &&& seq1 == seq0
                &&& pending1 == (if pending_index(pending0, addr) >= 0 {
                    pending0.remove(pending_index(pending0, addr))
                } else {
                    pending0
                })
            } else {
                &&& seq1 == (seq0 + 1) as u64
                &&& (if pending_index(pending0, addr) >= 0 {
                    pending1 == pending0
                } else {
                    &&& pending1.len() == pending0.len() + 1
                    &&& pending1.take(pending0.len() as int) == pending0
                    &&& ({
                        let c = pending1.last();
                        &&& c.client_id == v.client_id
                        &&& c.addr == addr
                        &&& c.state == ConnectionState::PendingResponse
                    })
                })
                &&& (match r {
                    ServerResult::PacketToSend(Packet::Challenge(tok)) => {
                        &&& tok.token_sequence == (seq0 + 1) as u64
                        &&& tok.token_data@ == sealed(
                            challenge_key,
                            nonce_of((seq0 + 1) as u64),
                            Seq::<u8>::empty(),
                            challenge_bytes(v.client_id, v.user_data),
                        )
                    },
                    _ => false,
                })
            }
        })
}

/// A connection record is internally consistent at session time `t`.
pub open spec fn conn_wf(c: Connection, t: u64) -> bool {
    &&& c.send_key@.len() == 32
    &&& c.receive_key@.len() == 32
    &&& c.last_packet_received_time <= t
    &&& c.connect_start_time <= t
}

impl Server {
    pub closed spec fn clients_spec(self) -> Seq<Option<Connection>> {
        self.clients@
    }

    pub closed spec fn pending_spec(self) -> Seq<Connection> {
        self.pending_clients@
    }

    pub closed spec fn protocol_id_spec(self) -> u64 {
        self.protocol_id
    }

    pub closed spec fn connect_key_spec(self) -> Seq<u8> {
        self.connect_key@
    }

    pub closed spec fn challenge_key_spec(self) -> Seq<u8> {
        self.challenge_key@
    }

    pub closed spec fn max_clients_spec(self) -> int {
        self.max_clients as int
    }

    pub closed spec fn challenge_sequence_spec(self) -> u64 {
        self.challenge_sequence
    }

    pub closed spec fn address_spec(self) -> NetAddr {
        self.address
    }

    pub closed spec fn current_time_spec(self) -> u64 {
        self.current_time
    }

    pub closed spec fn events_spec(self) -> Seq<ServerEvent> {
        self.events@
    }

    /// The configuration fields a call may never change.
    pub open spec fn same_config(self, other: Server) -> bool {
        &&& self.protocol_id_spec() == other.protocol_id_spec()
        &&& self.connect_key_spec() == other.connect_key_spec()
        &&& self.challenge_key_spec() == other.challenge_key_spec()
        &&& self.max_clients_spec() == other.max_clients_spec()
        &&& self.address_spec() == other.address_spec()
    }

    /// Invariant: the slot table has its fixed size; no two connected
    /// clients share an address; pending records have distinct addresses,
    /// none of which is connected; every record is consistent with the
    /// session clock.
    pub open spec fn wf(self) -> bool {
        &&& self.clients_spec().len() == self.max_clients_spec()
        &&& self.connect_key_spec().len() == 32
        &&& self.challenge_key_spec().len() == 32
        &&& forall|i: int, j: int|
            0 <= i < j < self.clients_spec().len() && self.clients_spec()[i] is Some
                && self.clients_spec()[j] is Some ==> (#[trigger] self.clients_spec()[i]).unwrap().addr
                != (#[trigger] self.clients_spec()[j]).unwrap().addr
        &&& forall|i: int, j: int|
            0 <= i < j < self.pending_spec().len() ==> (#[trigger] self.pending_spec()[i]).addr != (
            #[trigger] self.pending_spec()[j]).addr
        &&& forall|i: int, j: int|
            0 <= i < self.pending_spec().len() && 0 <= j < self.clients_spec().len()
                && self.clients_spec()[j] is Some ==> (#[trigger] self.pending_spec()[i]).addr != (
            #[trigger] self.clients_spec()[j]).unwrap().addr
        &&& forall|i: int|
            0 <= i < self.clients_spec().len() && self.clients_spec()[i] is Some ==> conn_wf(
                (#[trigger] self.clients_spec()[i]).unwrap(),
                self.current_time_spec(),
            )
        &&& forall|i: int|
            0 <= i < self.pending_spec().len() ==> conn_wf(
                #[trigger] self.pending_spec()[i],
                self.current_time_spec(),
            )
    }

    /// A fresh server: every slot empty, nothing pending, the challenge
    /// sequence at zero and the session clock at zero. The challenge key is
    /// fresh random material.
    pub fn new(
        max_clients: usize,
        protocol_id: u64,
        address: NetAddr,
        private_key: [u8; NETCODE_KEY_BYTES],
    ) -> (r: Server)
        ensures
            r.wf(),
            r.max_clients_spec() == max_clients,
            r.protocol_id_spec() == protocol_id,
            r.address_spec() == address,
            r.connect_key_spec() == private_key@,
            r.challenge_sequence_spec() == 0,
            r.current_time_spec() == 0,
            r.clients_spec().len() == max_clients,
            forall|i: int| 0 <= i < max_clients ==> r.clients_spec()[i] is None,
            r.pending_spec() == Seq::<Connection>::empty(),
            r.events_spec() == Seq::<ServerEvent>::empty(),
    {
        let challenge_key = vstd::slice::slice_to_vec(array_as_slice(&generate_random_bytes()));
        let connect_key = vstd::slice::slice_to_vec(array_as_slice(&private_key));
        proof {
            assert(challenge_key@.len() == 32);
            assert(connect_key@ == private_key@);
        }
        let mut clients: Vec<Option<Connection>> = Vec::new();
        let mut i: usize = 0;
        while i < max_clients
            invariant
                i <= max_clients,
                clients@.len() == i,
                forall|j: int| 0 <= j < i ==> clients@[j] is None,
            decreases max_clients - i,
        {
            clients.push(None);
            i += 1;
        }
        Server {
            clients,
            pending_clients: Vec::new(),
            protocol_id,
            connect_key,
            max_clients,
            challenge_sequence: 0,
            challenge_key,
            address,
            current_time: 0,
            events: Vec::new(),
        }
    }

    pub fn max_clients(&self) -> (r: usize)
        ensures
            r == self.max_clients_spec(),
    {
        self.max_clients
    }

    /// The last challenge sequence number handed out.
    pub fn challenge_sequence(&self) -> (r: u64)
        ensures
            r == self.challenge_sequence_spec(),
    {
        self.challenge_sequence
    }

    /// The session clock, in milliseconds.
    pub fn current_time(&self) -> (r: u64)
        ensures
            r == self.current_time_spec(),
    {
        self.current_time
    }

    /// Encode a control packet for the peer at `addr`, sealed under that
    /// record's send key and stamped with its current outbound sequence
    /// number; the connected table takes precedence over the pending one.
    /// The record's sequence advances by one exactly when a datagram comes
    /// back, so the sequence numbers on one connection's outbound packets
    /// strictly increase. Nothing is encoded for an unknown address, for a
    /// connection request, or once a record's sequence space is exhausted.
    pub fn encode_reply(&mut self, addr: NetAddr, packet: &Packet) -> (r: Option<Vec<u8>>)
        requires
            old(self).wf(),
        ensures
            final(self).wf(),
            final(self).same_config(*old(self)),
            final(self).current_time_spec() == old(self).current_time_spec(),
            final(self).events_spec() == old(self).events_spec(),
            final(self).challenge_sequence_spec() == old(self).challenge_sequence_spec(),
            ({
                let k = find_addr(old(self).clients_spec(), addr);
                let kp = pending_index(old(self).pending_spec(), addr);
                if k >= 0 {
                    let c = old(self).clients_spec()[k].unwrap();
                    &&& final(self).pending_spec() == old(self).pending_spec()
                    &&& (packet@ is Request || c.sequence == u64::MAX ==> r is None && final(self).clients_spec() == old(self).clients_spec())
                    &&& (!(packet@ is Request) && c.sequence < u64::MAX ==> {
                        &&& (body_of(packet@).len() < 0x3FFFFFFFC0 ==> r is Some)
                        &&& (r is Some ==> r.unwrap()@ == spec_encode(
                            packet@,
                            old(self).protocol_id_spec(),
                            c.sequence,
                            c.send_key@,
                        ) && final(self).clients_spec()[k] is Some && final(self).clients_spec()[k].unwrap() == (Connection {
                            sequence: (c.sequence + 1) as u64,
                            client_id: c.client_id,
                            state: c.state,
                            send_key: c.send_key,
                            receive_key: c.receive_key,
                            addr: c.addr,
                            last_packet_received_time: c.last_packet_received_time,
                            last_packet_send_time: c.last_packet_send_time,
                            timeout_seconds: c.timeout_seconds,
                            expire_timestamp: c.expire_timestamp,
                            create_timestamp: c.create_timestamp,
                            connect_start_time: c.connect_start_time,
                        }) && forall|j: int|
                            0 <= j < old(self).clients_spec().len() && j != k ==> final(self).clients_spec()[j] == old(self).clients_spec()[j])
                        &&& (r is None ==> final(self).clients_spec() == old(self).clients_spec())
                    })
                } else if kp >= 0 {
                    let c = old(self).pending_spec()[kp];
                    &&& final(self).clients_spec() == old(self).clients_spec()
                    &&& (packet@ is Request || c.sequence == u64::MAX ==> r is None && final(self).pending_spec() == old(self).pending_spec())
                    &&& (!(packet@ is Request) && c.sequence < u64::MAX ==> {
                        &&& (body_of(packet@).len() < 0x3FFFFFFFC0 ==> r is Some)
                        &&& (r is Some ==> r.unwrap()@ == spec_encode(
                            packet@,
                            old(self).protocol_id_spec(),
                            c.sequence,
                            c.send_key@,
                        ) && final(self).pending_spec() == old(self).pending_spec().update(
                            kp,
                            (Connection {
                                sequence: (c.sequence + 1) as u64,
                                client_id: c.client_id,
                                state: c.state,
                                send_key: c.send_key,
                                receive_key: c.receive_key,
                                addr: c.addr,
                                last_packet_received_time: c.last_packet_received_time,
                                last_packet_send_time: c.last_packet_send_time,
                                timeout_seconds: c.timeout_seconds,
                                expire_timestamp: c.expire_timestamp,
                                create_timestamp: c.create_timestamp,
                                connect_start_time: c.connect_start_time,
                            }),
                        ))
                        &&& (r is None ==> final(self).pending_spec() == old(self).pending_spec())
                    })
                } else {
                    r is None && *final(self) == *old(self)
                }
            }),
    {
        proof {
            lemma_find_addr_props(old(self).clients_spec(), addr);
        }
        if matches!(packet, Packet::ConnectionRequest(_)) {
            return None;
        }
        match self.find_client_by_addr(addr) {
            Some(k) => {
                let mut taken: Option<Connection> = None;
                self.clients.set_and_swap(k, &mut taken);
                let mut connection = taken.unwrap();
                if connection.sequence == u64::MAX {
                    self.clients.set(k, Some(connection));
                    proof {
                        assert(self.clients@ =~= old(self).clients_spec());
                    }
                    return None;
                }
                let encoded = packet.encode(
                    self.protocol_id,
                    Some((connection.sequence, connection.send_key.as_slice())),
                );
                match encoded {
                    Ok(bytes) => {
                        connection.sequence = connection.sequence + 1;
                        self.clients.set(k, Some(connection));
                        proof {
                            assert forall|a: int, b: int|
                                0 <= a < b < self.clients@.len() && self.clients@[a] is Some
                                    && self.clients@[b] is Some implies (
                            #[trigger] self.clients@[a]).unwrap().addr != (
                            #[trigger] self.clients@[b]).unwrap().addr by {
                                assert(a != k as int ==> self.clients@[a] == old(self).clients_spec()[a]);
                                assert(b != k as int ==> self.clients@[b] == old(self).clients_spec()[b]);
                            }
                            assert forall|a: int|
                                0 <= a < self.pending_clients@.len() implies (
                            #[trigger] self.pending_clients@[a]).addr
                                != connection.addr by {
                                assert(self.pending_clients@[a].addr != old(self).clients_spec()[k as int].unwrap().addr);
                            }
                        }
                        Some(bytes)
                    },
                    Err(_) => {
                        self.clients.set(k, Some(connection));
                        proof {
                            assert(self.clients@ =~= old(self).clients_spec());
                        }
                        None
                    },
                }
            },
            None => {
                match self.find_pending(addr) {
                    Some(kp) => {
                        let ghost pending0 = self.pending_clients@;
                        let mut pending = self.pending_clients.remove(kp);
                        if pending.sequence == u64::MAX {
                            self.pending_clients.insert(kp, pending);
                            proof {
                                lemma_pending_reinsert_wf(
                                    pending0,
                                    self.pending_clients@,
                                    kp as int,
                                    self.pending_clients@[kp as int],
                                );
                                assert(self.pending_clients@ =~= old(self).pending_spec());
                            }
                            return None;
                        }
                        let encoded = packet.encode(
                            self.protocol_id,
                            Some((pending.sequence, pending.send_key.as_slice())),
                        );
                        match encoded {
                            Ok(bytes) => {
                                pending.sequence = pending.sequence + 1;
                                self.pending_clients.insert(kp, pending);
                                proof {
                                    lemma_pending_reinsert_wf(
                                        pending0,
                                        self.pending_clients@,
                                        kp as int,
                                        self.pending_clients@[kp as int],
                                    );
                                }
                                Some(bytes)
                            },
                            Err(_) => {
                                self.pending_clients.insert(kp, pending);
                                proof {
                                    lemma_pending_reinsert_wf(
                                        pending0,
                                        self.pending_clients@,
                                        kp as int,
                                        self.pending_clients@[kp as int],
                                    );
                                    assert(self.pending_clients@ =~= old(self).pending_spec());
                                }
                                None
                            },
                        }
                    },
                    None => None,
                }
            },
        }
    }

    /// Indices of the occupied slots, in increasing order.
    pub fn clients_slot(&self) -> (r: Vec<usize>)
        ensures
            r@ == occupied_slots(self.clients_spec()),
    {
        let mut r: Vec<usize> = Vec::new();
        let mut i: usize = 0;
        let n = self.clients.len();
        proof {
            assert(self.clients@.take(0) =~= Seq::<Option<Connection>>::empty());
        }
        while i < n
            invariant
                i <= n,
                n == self.clients@.len(),
                r@ == occupied_slots(self.clients@.take(i as int)),
            decreases n - i,
        {
            proof {
                assert(self.clients@.take(i as int + 1).drop_last() =~= self.clients@.take(
                    i as int,
                ));
                assert(self.clients@.take(i as int + 1).last() == self.clients@[i as int]);
            }
            if self.clients[i].is_some() {
                r.push(i);
            }
            proof {
                assert(r@ =~= occupied_slots(self.clients@.take(i as int + 1)));
            }
            i += 1;
        }
        proof {
            assert(self.clients@.take(n as int) =~= self.clients@);
        }
        r
    }

    /// Client ids of the occupied slots, in slot order.
    pub fn clients_id(&self) -> (r: Vec<u64>)
        ensures
            r@ == occupied_ids(self.clients_spec()),
    {
        let mut r: Vec<u64> = Vec::new();
        let mut i: usize = 0;
        let n = self.clients.len();
        proof {
            assert(self.clients@.take(0) =~= Seq::<Option<Connection>>::empty());
        }
        while i < n
            invariant
                i <= n,
                n == self.clients@.len(),
                r@ == occupied_ids(self.clients@.take(i as int)),
            decreases n - i,
        {
            proof {
                assert(self.clients@.take(i as int + 1).drop_last() =~= self.clients@.take(
                    i as int,
                ));
                assert(self.clients@.take(i as int + 1).last() == self.clients@[i as int]);
            }
            match &self.clients[i] {
                Some(c) => {
                    r.push(c.client_id);
                },
                None => {},
            }
            proof {
                assert(r@ =~= occupied_ids(self.clients@.take(i as int + 1)));
            }
            i += 1;
        }
        proof {
            assert(self.clients@.take(n as int) =~= self.clients@);
        }
        r
    }

    /// Whether a pending handshake exists for `addr`.
    pub fn is_pending(&self, addr: NetAddr) -> (r: bool)
        ensures
            r <==> pending_index(self.pending_spec(), addr) >= 0,
    {
        self.find_pending(addr).is_some()
    }

    /// Check a connection request against the protocol version, the expiry
    /// wall clock, the connect key and the host list, handing back the
    /// decrypted private token.
    pub fn validate_client_token(&self, request: &ConnectionRequest, now_secs: u64) -> (r: Result<
        PrivateConnectToken,
        NetcodeError,
    >)
        requires
            self.wf(),
        ensures
            request.version_info@ != version_info_spec() ==> r == Result::<
                PrivateConnectToken,
                NetcodeError,
            >::Err(NetcodeError::InvalidVersion),
            request.version_info@ == version_info_spec() && now_secs > request.expire_timestamp
                ==> r == Result::<PrivateConnectToken, NetcodeError>::Err(NetcodeError::Expired),
            request.version_info@ == version_info_spec() && now_secs <= request.expire_timestamp
                && request.xnonce@.len() != 24 ==> r == Result::<
                PrivateConnectToken,
                NetcodeError,
            >::Err(NetcodeError::InvalidToken),
            request.version_info@ == version_info_spec() && now_secs <= request.expire_timestamp
                && request.xnonce@.len() == 24 && (forall|pt: Seq<u8>|
                request.data@ != xsealed(
                    self.connect_key_spec(),
                    request.xnonce@,
                    token_aad(self.protocol_id_spec(), request.expire_timestamp),
                    pt,
                )) ==> r == Result::<PrivateConnectToken, NetcodeError>::Err(
                NetcodeError::InvalidToken,
            ),
            forall|v: TokenV|
                #![auto]
                token_wf(v) && request.version_info@ == version_info_spec() && now_secs
                    <= request.expire_timestamp && request.xnonce@.len() == 24 && request.data@
                    == xsealed(
                    self.connect_key_spec(),
                    request.xnonce@,
                    token_aad(self.protocol_id_spec(), request.expire_timestamp),
                    private_token_bytes(v),
                ) ==> (if v.server_addresses.contains(self.address_spec()) {
                    r is Ok && r.unwrap()@ =~= v
                } else {
                    r == Result::<PrivateConnectToken, NetcodeError>::Err(
                        NetcodeError::NotInHostList,
                    )
                }),
            r is Ok ==> token_wf(r.unwrap()@) && r.unwrap()@.server_addresses.contains(
                self.address_spec(),
            ),
    {
        let version = version_info();
        if !vecs_equal(&request.version_info, &version) {
            return Err(NetcodeError::InvalidVersion);
        }
        if now_secs > request.expire_timestamp {
            return Err(NetcodeError::Expired);
        }
        if request.xnonce.len() != 24 {
            return Err(NetcodeError::InvalidToken);
        }
        let data_slice = request.data.as_slice();
        let xnonce_slice = request.xnonce.as_slice();
        let key_slice = self.connect_key.as_slice();
        let decoded = PrivateConnectToken::decode(
            data_slice,
            self.protocol_id,
            request.expire_timestamp,
            xnonce_slice,
            key_slice,
        );
        proof {
            if forall|pt: Seq<u8>|
                request.data@ != xsealed(
                    self.connect_key_spec(),
                    request.xnonce@,
                    token_aad(self.protocol_id_spec(), request.expire_timestamp),
                    pt,
                ) {
                assert forall|pt: Seq<u8>|
                    data_slice@ != xsealed(
                        key_slice@,
                        xnonce_slice@,
                        token_aad(self.protocol_id, request.expire_timestamp),
                        pt,
                    ) by {
                    assert(xsealed(
                        key_slice@,
                        xnonce_slice@,
                        token_aad(self.protocol_id, request.expire_timestamp),
                        pt,
                    ) == xsealed(
                        self.connect_key_spec(),
                        request.xnonce@,
                        token_aad(self.protocol_id_spec(), request.expire_timestamp),
                        pt,
                    ));
                }
                assert(decoded == Result::<PrivateConnectToken, NetcodeError>::Err(
                    NetcodeError::InvalidToken,
                ));
            }
        }
        let token = match decoded {
            Ok(t) => t,
            Err(e) => {
                return Err(e);
            },
        };
        let mut in_host_list = false;
        let mut i: usize = 0;
        let n = token.server_addresses.len();
        while i < n
            invariant
                i <= n,
                n == token.server_addresses@.len(),
                in_host_list <==> exists|j: int|
                    0 <= j < i && token.server_addresses@[j] == self.address,
            decreases n - i,
        {
            if token.server_addresses[i].ip == self.address.ip
                && token.server_addresses[i].is_v6 == self.address.is_v6
                && token.server_addresses[i].port == self.address.port {
                proof {
                    assert(token.server_addresses@[i as int] == self.address);
                }
                in_host_list = true;
            }
            i += 1;
        }
        if in_host_list {
            proof {
                let j = choose|j: int|
                    0 <= j < token.server_addresses@.len() && token.server_addresses@[j]
                        == self.address;
                assert(token.server_addresses@.contains(self.address));
            }
            Ok(token)
        } else {
            Err(NetcodeError::NotInHostList)
        }
    }

    /// Run the handshake for a validated-looking request: reject duplicate
    /// clients silently, deny when every slot is taken, otherwise record (or
    /// keep) the pending connection and answer with a fresh challenge under
    /// the next challenge sequence.
    pub fn handle_connection_request(
        &mut self,
        addr: NetAddr,
        request: &ConnectionRequest,
        now_secs: u64,
    ) -> (r: Result<ServerResult, NetcodeError>)
        requires
            old(self).wf(),
            old(self).challenge_sequence_spec() < u64::MAX,
        ensures
            final(self).wf(),
            final(self).same_config(*old(self)),
            final(self).clients_spec() == old(self).clients_spec(),
            final(self).current_time_spec() == old(self).current_time_spec(),
            final(self).events_spec() == old(self).events_spec(),
            final(self).challenge_sequence_spec() >= old(self).challenge_sequence_spec(),
            r is Err ==> *final(self) == *old(self),
            final(self).challenge_sequence_spec() == old(self).challenge_sequence_spec() + 1 <==> (
            r is Ok && r.unwrap() is PacketToSend && r.unwrap()->PacketToSend_0 is Challenge),
            handshake_post(
                old(self).clients_spec(),
                old(self).pending_spec(),
                old(self).challenge_sequence_spec(),
                old(self).connect_key_spec(),
                old(self).challenge_key_spec(),
                old(self).protocol_id_spec(),
                old(self).address_spec(),
                old(self).current_time_spec(),
                addr,
                request.version_info@,
                request.create_timestamp,
                request.expire_timestamp,
                request.xnonce@,
                request.data@,
                now_secs,
                final(self).pending_spec(),
                final(self).challenge_sequence_spec(),
                r,
            ),
    {
        let token = match self.validate_client_token(request, now_secs) {
            Ok(t) => t,
            Err(e) => {
                return Err(e);
            },
        };

        let addr_already_connected = self.find_client_by_addr(addr).is_some();
        let id_already_connected = self.find_client_by_id(token.client_id).is_some();
        if id_already_connected || addr_already_connected {
            return Ok(ServerResult::NoResponse);
        }

        if self.find_free_slot().is_none() {
            match self.find_pending(addr) {
                Some(k) => {
                    self.pending_clients.remove(k);
                    proof {
                        lemma_pending_remove_keeps_wf(old(self).pending_spec(), k as int);
                        assert forall|i: int|
                            0 <= i < self.pending_clients@.len() implies conn_wf(
                            #[trigger] self.pending_clients@[i],
                            self.current_time,
                        ) by {
                            if i < k as int {
                                assert(self.pending_clients@[i] == old(self).pending_spec()[i]);
                            } else {
                                assert(self.pending_clients@[i] == old(self).pending_spec()[i + 1]);
                            }
                        }
                        assert forall|i: int, j: int|
                            0 <= i < self.pending_clients@.len() && 0 <= j < self.clients@.len()
                                && self.clients@[j] is Some implies (
                        #[trigger] self.pending_clients@[i]).addr != (
                        #[trigger] self.clients@[j]).unwrap().addr by {
                            if i < k as int {
                                assert(self.pending_clients@[i] == old(self).pending_spec()[i]);
                            } else {
                                assert(self.pending_clients@[i] == old(self).pending_spec()[i + 1]);
                            }
                        }
                    }
                },
                None => {},
            }
            return Ok(ServerResult::PacketToSend(Packet::ConnectionDenied));
        }

        if self.find_pending(addr).is_none() {
            let connection = Connection {
                sequence: 0,
                client_id: token.client_id,
                last_packet_received_time: self.current_time,
                last_packet_send_time: Some(self.current_time),
                addr,
                state: ConnectionState::PendingResponse,
                send_key: token.server_to_client_key,
                receive_key: token.client_to_server_key,
                timeout_seconds: token.timeout_seconds,
                connect_start_time: self.current_time,
                expire_timestamp: request.expire_timestamp,
                create_timestamp: request.create_timestamp,
            };
            self.pending_clients.push(connection);
            proof {
                assert(self.pending_clients@.take(old(self).pending_spec().len() as int)
                    =~= old(self).pending_spec());
                assert forall|i: int, j: int|
                    0 <= i < j < self.pending_clients@.len() implies (
                #[trigger] self.pending_clients@[i]).addr != (
                #[trigger] self.pending_clients@[j]).addr by {
                    if j == self.pending_clients@.len() - 1 {
                        lemma_pending_index_at_least(old(self).pending_spec(), addr, i);
                    }
                }
            }
        }

        self.challenge_sequence = self.challenge_sequence + 1;
        let packet = match EncryptedChallengeToken::generate(
            token.client_id,
            token.user_data.as_slice(),
            self.challenge_sequence,
            self.challenge_key.as_slice(),
        ) {
            Ok(tok) => Packet::Challenge(tok),
            Err(_) => {
                return Err(NetcodeError::CryptoError);
            },
        };
        Ok(ServerResult::PacketToSend(packet))
    }

    /// Advance the session clock and reap every slot whose client timed out
    /// or was marked disconnected, queueing a disconnect event and an
    /// advisory `Disconnect` datagram for each.
    pub fn update(&mut self, duration_millis: u64) -> (r: Vec<(NetAddr, Packet)>)
        requires
            old(self).wf(),
            old(self).current_time_spec() + duration_millis <= u64::MAX,
        ensures
            final(self).wf(),
            final(self).same_config(*old(self)),
            final(self).current_time_spec() == old(self).current_time_spec() + duration_millis,
            final(self).pending_spec() == old(self).pending_spec(),
            final(self).challenge_sequence_spec() == old(self).challenge_sequence_spec(),
            final(self).clients_spec().len() == old(self).clients_spec().len(),
            forall|j: int|
                0 <= j < old(self).clients_spec().len() ==> final(self).clients_spec()[j]
                    == update_slot(
                    #[trigger] old(self).clients_spec()[j],
                    final(self).current_time_spec(),
                ),
            final(self).events_spec() == old(self).events_spec() + disconnect_events(
                old(self).clients_spec(),
                final(self).current_time_spec(),
            ),
            r@.map_values(|p: (NetAddr, Packet)| p.0) == disconnect_addrs(
                old(self).clients_spec(),
                final(self).current_time_spec(),
            ),
            forall|i: int| 0 <= i < r@.len() ==> (#[trigger] r@[i]).1 is Disconnect,
    {
        self.current_time = self.current_time + duration_millis;
        let t = self.current_time;
        let mut disconnect_packets: Vec<(NetAddr, Packet)> = Vec::new();
        let mut i: usize = 0;
        let n = self.clients.len();
        proof {
            assert(old(self).clients_spec().take(0) =~= Seq::<Option<Connection>>::empty());
            assert(disconnect_packets@.map_values(|p: (NetAddr, Packet)| p.0) =~= Seq::<
                NetAddr,
            >::empty());
        }
        while i < n
            invariant
                old(self).wf(),
                i <= n,
                n == self.clients@.len() == old(self).clients_spec().len(),
                t == self.current_time,
                t == old(self).current_time_spec() + duration_millis,
                self.pending_clients == old(self).pending_clients,
                self.protocol_id == old(self).protocol_id,
                self.connect_key == old(self).connect_key,
                self.challenge_key == old(self).challenge_key,
                self.max_clients == old(self).max_clients,
                self.challenge_sequence == old(self).challenge_sequence,
                self.address == old(self).address,
                forall|j: int|
                    0 <= j < i ==> self.clients@[j] == update_slot(
                        #[trigger] old(self).clients_spec()[j],
                        t,
                    ),
                forall|j: int| i <= j < n ==> self.clients@[j] == old(self).clients_spec()[j],
                self.events@ == old(self).events_spec() + disconnect_events(
                    old(self).clients_spec().take(i as int),
                    t,
                ),
                disconnect_packets@.map_values(|p: (NetAddr, Packet)| p.0) == disconnect_addrs(
                    old(self).clients_spec().take(i as int),
                    t,
                ),
                forall|k: int|
                    0 <= k < disconnect_packets@.len() ==> (#[trigger] disconnect_packets@[k]).1
                        is Disconnect,
            decreases n - i,
        {
            proof {
                assert(old(self).clients_spec().take(i as int + 1).drop_last()
                    =~= old(self).clients_spec().take(i as int));
                assert(old(self).clients_spec().take(i as int + 1).last()
                    == old(self).clients_spec()[i as int]);
            }
            let mut taken: Option<Connection> = None;
            self.clients.set_and_swap(i, &mut taken);
            match taken {
                None => {
                    proof {
                        assert(self.events@ =~= old(self).events_spec() + disconnect_events(
                            old(self).clients_spec().take(i as int + 1),
                            t,
                        ));
                        assert(disconnect_packets@.map_values(|p: (NetAddr, Packet)| p.0)
                            =~= disconnect_addrs(old(self).clients_spec().take(i as int + 1), t));
                    }
                },
                Some(mut client) => {
                    proof {
                        assert(client == old(self).clients_spec()[i as int].unwrap());
                        assert(conn_wf(client, old(self).current_time_spec()));
                    }
                    let connection_timed_out = client.timeout_seconds > 0 && t
                        - client.last_packet_received_time > (client.timeout_seconds as u64)
                        * 1000;
                    if connection_timed_out {
                        client.state = ConnectionState::Disconnected;
                    }
                    if client.state == ConnectionState::Disconnected {
                        let ghost dp0 = disconnect_packets@;
                        self.events.push(ServerEvent::ClientDisconnected(client.client_id));
                        disconnect_packets.push((client.addr, Packet::Disconnect));
                        proof {
                            assert(self.events@ =~= old(self).events_spec() + disconnect_events(
                                old(self).clients_spec().take(i as int + 1),
                                t,
                            ));
                            assert(disconnect_packets@.map_values(|p: (NetAddr, Packet)| p.0)
                                =~= dp0.map_values(|p: (NetAddr, Packet)| p.0).push(
                                old(self).clients_spec()[i as int].unwrap().addr,
                            ));
                            assert(disconnect_packets@.map_values(|p: (NetAddr, Packet)| p.0)
                                =~= disconnect_addrs(
                                old(self).clients_spec().take(i as int + 1),
                                t,
                            ));
                        }
                    } else {
                        self.clients.set(i, Some(client));
                        proof {
                            assert(self.events@ =~= old(self).events_spec() + disconnect_events(
                                old(self).clients_spec().take(i as int + 1),
                                t,
                            ));
                            assert(disconnect_packets@.map_values(|p: (NetAddr, Packet)| p.0)
                                =~= disconnect_addrs(
                                old(self).clients_spec().take(i as int + 1),
                                t,
                            ));
                        }
                    }
                },
            }
            i += 1;
        }
        proof {
            assert(old(self).clients_spec().take(n as int) =~= old(self).clients_spec());
            assert forall|j: int|
                0 <= j < self.clients@.len() && self.clients@[j] is Some implies conn_wf(
                (#[trigger] self.clients@[j]).unwrap(),
                self.current_time,
            ) by {
                assert(self.clients@[j] == update_slot(old(self).clients_spec()[j], t));
                assert(conn_wf(old(self).clients_spec()[j].unwrap(), old(self).current_time_spec()));
            }
            assert forall|a: int, b: int|
                0 <= a < b < self.clients@.len() && self.clients@[a] is Some && self.clients@[b]
                    is Some implies (#[trigger] self.clients@[a]).unwrap().addr != (
            #[trigger] self.clients@[b]).unwrap().addr by {
                assert(self.clients@[a] == update_slot(old(self).clients_spec()[a], t));
                assert(self.clients@[b] == update_slot(old(self).clients_spec()[b], t));
            }
            assert forall|a: int, b: int|
                0 <= a < self.pending_clients@.len() && 0 <= b < self.clients@.len()
                    && self.clients@[b] is Some implies (#[trigger] self.pending_clients@[a]).addr
                != (#[trigger] self.clients@[b]).unwrap().addr by {
                assert(self.clients@[b] == update_slot(old(self).clients_spec()[b], t));
            }
            assert forall|a: int|
                0 <= a < self.pending_clients@.len() implies conn_wf(
                #[trigger] self.pending_clients@[a],
                self.current_time,
            ) by {
                assert(conn_wf(old(self).pending_spec()[a], old(self).current_time_spec()));
            }
        }
        disconnect_packets
    }

    /// Reap one slot: when its client timed out or disconnected, vacate it,
    /// queue the event, and hand back the encoded `Disconnect` datagram for
    /// its address.
    pub fn update_client(&mut self, slot: usize) -> (r: Option<(Vec<u8>, NetAddr)>)
        requires
            old(self).wf(),
        ensures
            final(self).wf(),
            final(self).same_config(*old(self)),
            final(self).current_time_spec() == old(self).current_time_spec(),
            final(self).pending_spec() == old(self).pending_spec(),
            final(self).challenge_sequence_spec() == old(self).challenge_sequence_spec(),
            slot >= old(self).clients_spec().len() ==> r is None && final(self).clients_spec()
                == old(self).clients_spec() && final(self).events_spec() == old(self).events_spec(),
            slot < old(self).clients_spec().len() ==> match old(self).clients_spec()[slot as int] {
                None => r is None && final(self).clients_spec() == old(self).clients_spec()
                    && final(self).events_spec() == old(self).events_spec(),
                Some(c) => {
                    if !vacate(c, old(self).current_time_spec()) {
                        r is None && final(self).clients_spec() == old(self).clients_spec()
                            && final(self).events_spec() == old(self).events_spec()
                    } else {
                        &&& final(self).clients_spec() == old(self).clients_spec().update(
                            slot as int,
                            None::<Connection>,
                        )
                        &&& final(self).events_spec() == old(self).events_spec().push(
                            ServerEvent::ClientDisconnected(c.client_id),
                        )
                        &&& r is Some
                        &&& r.unwrap().1 == c.addr
                        &&& r.unwrap().0@ == spec_encode(
                            PacketV::Disconnect,
                            old(self).protocol_id_spec(),
                            c.sequence,
                            c.send_key@,
                        )
                    }
                },
            },
    {
        if slot >= self.clients.len() {
            return None;
        }
        let mut taken: Option<Connection> = None;
        self.clients.set_and_swap(slot, &mut taken);
        match taken {
            None => {
                proof {
                    assert(self.clients@ =~= old(self).clients_spec());
                }
                None
            },
            Some(mut client) => {
                proof {
                    assert(client == old(self).clients_spec()[slot as int].unwrap());
                    assert(conn_wf(client, old(self).current_time_spec()));
                }
                let connection_timed_out = client.timeout_seconds > 0 && self.current_time
                    - client.last_packet_received_time > (client.timeout_seconds as u64) * 1000;
                if connection_timed_out {
                    client.state = ConnectionState::Disconnected;
                }
                if client.state == ConnectionState::Disconnected {
                    self.events.push(ServerEvent::ClientDisconnected(client.client_id));
                    let packet = Packet::Disconnect;
                    match packet.encode(
                        self.protocol_id,
                        Some((client.sequence, client.send_key.as_slice())),
                    ) {
                        Err(_) => None,
                        Ok(encoded) => Some((encoded, client.addr)),
                    }
                } else {
                    self.clients.set(slot, Some(client));
                    proof {
                        assert(self.clients@ =~= old(self).clients_spec());
                    }
                    None
                }
            },
        }
    }

    /// Drop every pending handshake whose token window has lapsed.
    pub fn update_pending_connections(&mut self)
        requires
            old(self).wf(),
        ensures
            final(self).wf(),
            final(self).same_config(*old(self)),
            final(self).current_time_spec() == old(self).current_time_spec(),
            final(self).clients_spec() == old(self).clients_spec(),
            final(self).events_spec() == old(self).events_spec(),
            final(self).challenge_sequence_spec() == old(self).challenge_sequence_spec(),
            final(self).pending_spec() == retained(
                old(self).pending_spec(),
                old(self).current_time_spec(),
            ),
    {
        let t = self.current_time;
        let ghost p0 = self.pending_clients@;
        let mut kept: Vec<Connection> = Vec::new();
        let ghost mut i: int = 0;
        proof {
            assert(p0.take(0) =~= Seq::<Connection>::empty());
        }
        while self.pending_clients.len() > 0
            invariant
                i <= p0.len(),
                p0 == old(self).pending_spec(),
                old(self).wf(),
                self.clients == old(self).clients,
                self.events == old(self).events,
                self.protocol_id == old(self).protocol_id,
                self.connect_key == old(self).connect_key,
                self.challenge_key == old(self).challenge_key,
                self.max_clients == old(self).max_clients,
                self.challenge_sequence == old(self).challenge_sequence,
                self.address == old(self).address,
                0 <= i,
                i + self.pending_clients@.len() == p0.len(),
                self.pending_clients@ == p0.skip(i),
                kept@ == retained(p0.take(i), t),
                t == self.current_time,
                t == old(self).current_time_spec(),
            decreases self.pending_clients@.len(),
        {
            proof {
                assert(p0.take(i + 1).drop_last() =~= p0.take(i));
                assert(p0.take(i + 1).last() == p0[i]);
                assert(p0.skip(i).drop_first() =~= p0.skip(i + 1));
            }
            let client = self.pending_clients.remove(0);
            proof {
                assert(client == p0[i]);
                assert(conn_wf(client, old(self).current_time_spec()));
            }
            let expire_seconds: u64 = if client.expire_timestamp >= client.create_timestamp {
                client.expire_timestamp - client.create_timestamp
            } else {
                0
            };
            let lapsed: u64 = (t - client.connect_start_time) / 1000;
            if lapsed < expire_seconds {
                kept.push(client);
            }
            proof {
                assert(kept@ =~= retained(p0.take(i + 1), t));
                i = i + 1;
            }
        }
        proof {
            assert(p0.take(i) =~= p0);
        }
        self.pending_clients = kept;
        proof {
            assert forall|a: int, b: int|
                0 <= a < b < self.pending_clients@.len() implies (
            #[trigger] self.pending_clients@[a]).addr != (#[trigger] self.pending_clients@[b]).addr by {
                lemma_retained_sub(p0, t, a, b);
            }
            assert forall|a: int|
                0 <= a < self.pending_clients@.len() implies conn_wf(
                #[trigger] self.pending_clients@[a],
                self.current_time,
            ) && (forall|j: int|
                0 <= j < self.clients@.len() && self.clients@[j] is Some
                    ==> self.pending_clients@[a].addr != (
                #[trigger] self.clients@[j]).unwrap().addr) by {
                lemma_retained_member(p0, t, a);
                let w = choose|w: int| 0 <= w < p0.len() && #[trigger] p0[w] == retained(p0, t)[a];
                assert(old(self).pending_spec()[w] == self.pending_clients@[a]);
                assert(conn_wf(old(self).pending_spec()[w], old(self).current_time_spec()));
            }
        }
    }

    /// Pop the oldest queued lifecycle event.
    pub fn pop_event(&mut self) -> (r: Option<ServerEvent>)
        requires
            old(self).wf(),
        ensures
            final(self).wf(),
            final(self).same_config(*old(self)),
            final(self).clients_spec() == old(self).clients_spec(),
            final(self).pending_spec() == old(self).pending_spec(),
            final(self).current_time_spec() == old(self).current_time_spec(),
            final(self).challenge_sequence_spec() == old(self).challenge_sequence_spec(),
            old(self).events_spec().len() == 0 ==> r is None && *final(self) == *old(self),
            old(self).events_spec().len() > 0 ==> r == Some(old(self).events_spec()[0])
                && final(self).events_spec() == old(self).events_spec().drop_first(),
    {
        if self.events.len() == 0 {
            return None;
        }
        let e = self.events.remove(0);
        proof {
            assert(self.events@ =~= old(self).events_spec().drop_first());
        }
        Some(e)
    }

    /// Route one datagram by source address: a connected client's packets
    /// are opened under its session key and dispatched; a pending client may
    /// re-run the handshake or answer the challenge; an unknown address may
    /// only present a connection request. Every failure is swallowed by
    /// `process_packet`.
    fn process_packet_internal(&mut self, addr: NetAddr, buffer: &[u8], now_secs: u64) -> (r:
        Result<ServerResult, NetcodeError>)
        requires
            old(self).wf(),
            old(self).challenge_sequence_spec() < u64::MAX,
        ensures
            final(self).wf(),
            final(self).same_config(*old(self)),
            final(self).current_time_spec() == old(self).current_time_spec(),
            final(self).challenge_sequence_spec() >= old(self).challenge_sequence_spec(),
            buffer@.len() <= 2 + NETCODE_MAC_BYTES ==> r is Ok && r.unwrap() is NoResponse
                && *final(self) == *old(self),
            ({
                let k = find_addr(old(self).clients_spec(), addr);
                k >= 0 ==> {
                    let c = old(self).clients_spec()[k].unwrap();
                    &&& final(self).pending_spec() == old(self).pending_spec()
                    &&& final(self).events_spec() == old(self).events_spec()
                    &&& final(self).challenge_sequence_spec() == old(self).challenge_sequence_spec()
                    &&& final(self).clients_spec().len() == old(self).clients_spec().len()
                    &&& forall|j: int|
                        0 <= j < old(self).clients_spec().len() && j != k ==> final(self).clients_spec()[j] == old(self).clients_spec()[j]
                    &&& final(self).clients_spec()[k] is Some
                    &&& ({
                        let c1 = final(self).clients_spec()[k].unwrap();
                        &&& c1.addr == c.addr
                        &&& c1.client_id == c.client_id
                        &&& c1.send_key == c.send_key
                        &&& c1.receive_key == c.receive_key
                        &&& c1.sequence == c.sequence
                        &&& c1.timeout_seconds == c.timeout_seconds
                        &&& c1.expire_timestamp == c.expire_timestamp
                        &&& c1.create_timestamp == c.create_timestamp
                        &&& c1.connect_start_time == c.connect_start_time
                        &&& c1.last_packet_send_time == c.last_packet_send_time
                        &&& (c1.state == c.state || (c.state == ConnectionState::Connected
                            && c1.state == ConnectionState::Disconnected))
                        &&& (c1.last_packet_received_time == c.last_packet_received_time
                            || c1.last_packet_received_time == old(self).current_time_spec())
                    })
                    &&& r is Err ==> final(self).clients_spec() == old(self).clients_spec()
                    &&& forall|v: PacketV, sq: u64|
                        #![auto]
                        !(v is Request) && buffer@.len() > 2 + NETCODE_MAC_BYTES && buffer@
                            == spec_encode(
                            v,
                            old(self).protocol_id_spec(),
                            sq,
                            c.receive_key@,
                        ) ==> {
                            let c1 = final(self).clients_spec()[k].unwrap();
                            &&& final(self).clients_spec()[k] is Some
                            &&& c1.last_packet_received_time == old(self).current_time_spec()
                            &&& c1.addr == c.addr && c1.client_id == c.client_id && c1.send_key
                                == c.send_key && c1.receive_key == c.receive_key && c1.sequence
                                == c.sequence
                            &&& (c.state == ConnectionState::Connected && v is Disconnect
                                ==> c1.state == ConnectionState::Disconnected && r is Ok
                                && r.unwrap() is NoResponse)
                            &&& (c.state == ConnectionState::Connected && v is Payload ==> c1.state
                                == c.state && r is Ok && r.unwrap() is Payload && (
                            r.unwrap()->Payload_0)@ == v->Payload_data)
                            &&& (!(c.state == ConnectionState::Connected && (v is Disconnect || v
                                is Payload)) ==> c1.state == c.state && r is Ok && r.unwrap()
                                is NoResponse)
                        }
                }
            }),
            ({
                let k = find_addr(old(self).clients_spec(), addr);
                let kp = pending_index(old(self).pending_spec(), addr);
                k == -1 && kp >= 0 ==> {
                    let pc = old(self).pending_spec()[kp];
                    &&& forall|v: PacketV|
                        #![trigger request_bytes(v)]
                        view_wf(v) && v is Request && buffer@.len() > 2 + NETCODE_MAC_BYTES
                            && buffer@ == request_bytes(v) ==> handshake_post(
                            old(self).clients_spec(),
                            old(self).pending_spec().update(kp, (Connection {
                                client_id: pc.client_id,
                                state: pc.state,
                                send_key: pc.send_key,
                                receive_key: pc.receive_key,
                                addr: pc.addr,
                                last_packet_received_time: old(self).current_time_spec(),
                                last_packet_send_time: pc.last_packet_send_time,
                                timeout_seconds: pc.timeout_seconds,
                                sequence: pc.sequence,
                                expire_timestamp: pc.expire_timestamp,
                                create_timestamp: pc.create_timestamp,
                                connect_start_time: pc.connect_start_time,
                            })),
                            old(self).challenge_sequence_spec(),
                            old(self).connect_key_spec(),
                            old(self).challenge_key_spec(),
                            old(self).protocol_id_spec(),
                            old(self).address_spec(),
                            old(self).current_time_spec(),
                            addr,
                            v->Request_version,
                            v->Request_create,
                            v->Request_expire,
                            v->Request_xnonce,
                            v->Request_data,
                            now_secs,
                            final(self).pending_spec(),
                            final(self).challenge_sequence_spec(),
                            r,
                        )
                    &&& forall|v: PacketV, sq: u64|
                        #![auto]
                        !(v is Request) && !(v is Response) && buffer@.len() > 2
                            + NETCODE_MAC_BYTES && buffer@ == spec_encode(
                            v,
                            old(self).protocol_id_spec(),
                            sq,
                            pc.receive_key@,
                        ) ==> {
                            &&& r is Ok
                            &&& r.unwrap() is NoResponse
                            &&& final(self).clients_spec() == old(self).clients_spec()
                            &&& final(self).events_spec() == old(self).events_spec()
                            &&& final(self).challenge_sequence_spec() == old(self).challenge_sequence_spec()
                            &&& final(self).pending_spec() == old(self).pending_spec().update(
                                kp,
                                (Connection {
                                client_id: pc.client_id,
                                state: pc.state,
                                send_key: pc.send_key,
                                receive_key: pc.receive_key,
                                addr: pc.addr,
                                last_packet_received_time: old(self).current_time_spec(),
                                last_packet_send_time: pc.last_packet_send_time,
                                timeout_seconds: pc.timeout_seconds,
                                sequence: pc.sequence,
                                expire_timestamp: pc.expire_timestamp,
                                create_timestamp: pc.create_timestamp,
                                connect_start_time: pc.connect_start_time,
                            }),
                            )
                        }
                    &&& forall|td: Seq<u8>, tseq: u64, sq: u64, cid: u64, ud: Seq<u8>|
                        #![auto]
                        buffer@.len() > 2 + NETCODE_MAC_BYTES && buffer@ == spec_encode(
                            PacketV::Response { token_sequence: tseq, token_data: td },
                            old(self).protocol_id_spec(),
                            sq,
                            pc.receive_key@,
                        ) && td == sealed(
                            old(self).challenge_key_spec(),
                            nonce_of(tseq),
                            Seq::<u8>::empty(),
                            challenge_bytes(cid, ud),
                        ) && pc.state == ConnectionState::PendingResponse ==> {
                            let slot = first_free_slot(old(self).clients_spec());
                            &&& final(self).pending_spec() == old(self).pending_spec().remove(kp)
                            &&& (slot == -1 ==> final(self).clients_spec() == old(self).clients_spec() && final(self).events_spec() == old(self).events_spec() && r is Ok && r.unwrap() is PacketToSend && (
                            r.unwrap()->PacketToSend_0) is ConnectionDenied)
                            &&& (slot >= 0 ==> {
                                let c1 = final(self).clients_spec()[slot].unwrap();
                                &&& forall|j: int|
                                    0 <= j < old(self).clients_spec().len() && j != slot ==> final(self).clients_spec()[j] == old(self).clients_spec()[j]
                                &&& final(self).clients_spec()[slot] is Some
                                &&& c1.client_id == pc.client_id
                                &&& c1.addr == addr
                                &&& c1.state == ConnectionState::Connected
                                &&& c1.last_packet_received_time == old(self).current_time_spec()
                                &&& c1.send_key == pc.send_key
                                &&& c1.receive_key == pc.receive_key
                                &&& c1.sequence == pc.sequence
                                &&& c1.timeout_seconds == pc.timeout_seconds
                                &&& c1.expire_timestamp == pc.expire_timestamp
                                &&& c1.create_timestamp == pc.create_timestamp
                                &&& c1.connect_start_time == pc.connect_start_time
                                &&& c1.last_packet_send_time == pc.last_packet_send_time
                                &&& final(self).events_spec() == old(self).events_spec().push(
                                    ServerEvent::ClientConnected(pc.client_id),
                                )
                                &&& r is Ok && r.unwrap() is PacketToSend
                                &&& (r.unwrap()->PacketToSend_0) is KeepAlive
                                &&& (r.unwrap()->PacketToSend_0)->KeepAlive_0.client_index == slot
                                    as u32
                                &&& (r.unwrap()->PacketToSend_0)->KeepAlive_0.max_clients == old(self).max_clients_spec() as u32
                            })
                        }
                }
            }),
            r is Err ==> final(self).clients_spec() == old(self).clients_spec() && final(self).events_spec() == old(self).events_spec() && final(self).challenge_sequence_spec()
                == old(self).challenge_sequence_spec(),
            ({
                let k = find_addr(old(self).clients_spec(), addr);
                let kp = pending_index(old(self).pending_spec(), addr);
                k == -1 && kp == -1 ==> {
                    &&& final(self).clients_spec() == old(self).clients_spec()
                    &&& final(self).events_spec() == old(self).events_spec()
                    &&& (buffer@.len() > 2 + NETCODE_MAC_BYTES && buffer@[0] != 0 ==> r
                        == Result::<ServerResult, NetcodeError>::Err(NetcodeError::NoKeyAvailable)
                        && *final(self) == *old(self))
                    &&& forall|v: PacketV|
                        #![trigger request_bytes(v)]
                        view_wf(v) && v is Request && buffer@.len() > 2 + NETCODE_MAC_BYTES
                            && buffer@ == request_bytes(v) ==> handshake_post(
                            old(self).clients_spec(),
                            old(self).pending_spec(),
                            old(self).challenge_sequence_spec(),
                            old(self).connect_key_spec(),
                            old(self).challenge_key_spec(),
                            old(self).protocol_id_spec(),
                            old(self).address_spec(),
                            old(self).current_time_spec(),
                            addr,
                            v->Request_version,
                            v->Request_create,
                            v->Request_expire,
                            v->Request_xnonce,
                            v->Request_data,
                            now_secs,
                            final(self).pending_spec(),
                            final(self).challenge_sequence_spec(),
                            r,
                        )
                }
            }),
    {
        proof {
            lemma_find_addr_props(old(self).clients_spec(), addr);
        }
        if buffer.len() <= 2 + NETCODE_MAC_BYTES {
            return Ok(ServerResult::NoResponse);
        }
        match self.find_client_by_addr(addr) {
            Some(k) => {
                let ghost c0 = self.clients@[k as int].unwrap();
                let key_slice = self.clients[k].as_ref().unwrap().receive_key.as_slice();
                proof {
                    assert(key_slice@ == c0.receive_key@);
                }
                let decoded = Packet::decode(buffer, self.protocol_id, Some(key_slice));
                proof {
                    assert forall|v: PacketV, sq: u64|
                        #![trigger spec_encode(v, old(self).protocol_id_spec(), sq, c0.receive_key@)]
                        !(v is Request) && buffer@.len() > 2 + NETCODE_MAC_BYTES && buffer@
                            == spec_encode(
                            v,
                            old(self).protocol_id_spec(),
                            sq,
                            c0.receive_key@,
                        ) implies decoded is Ok && decoded.unwrap().1@ == v
                        && decoded.unwrap().0 == sq by {
                        assert(spec_encode(v, self.protocol_id, sq, key_slice@) == spec_encode(
                            v,
                            old(self).protocol_id_spec(),
                            sq,
                            c0.receive_key@,
                        ));
                    }
                }
                let packet = match decoded {
                    Err(e) => {
                        return Err(e);
                    },
                    Ok((_, p)) => p,
                };
                let mut taken: Option<Connection> = None;
                self.clients.set_and_swap(k, &mut taken);
                let mut connection = taken.unwrap();
                connection.last_packet_received_time = self.current_time;
                let result: ServerResult;
                if connection.state == ConnectionState::Connected {
                    match packet {
                        Packet::Disconnect => {
                            connection.state = ConnectionState::Disconnected;
                            result = ServerResult::NoResponse;
                        },
                        Packet::Payload(payload) => {
                            result = ServerResult::Payload(payload);
                        },
                        _ => {
                            result = ServerResult::NoResponse;
                        },
                    }
                } else {
                    result = ServerResult::NoResponse;
                }
                self.clients.set(k, Some(connection));
                proof {
                    assert forall|a: int, b: int|
                        0 <= a < b < self.clients@.len() && self.clients@[a] is Some
                            && self.clients@[b] is Some implies (
                    #[trigger] self.clients@[a]).unwrap().addr != (
                    #[trigger] self.clients@[b]).unwrap().addr by {
                        assert(a != k as int ==> self.clients@[a] == old(self).clients_spec()[a]);
                        assert(b != k as int ==> self.clients@[b] == old(self).clients_spec()[b]);
                    }
                    assert forall|a: int|
                        0 <= a < self.pending_clients@.len() implies (
                    #[trigger] self.pending_clients@[a]).addr != connection.addr by {
                        assert(self.pending_clients@[a].addr != c0.addr);
                    }
                }
                Ok(result)
            },
            None => {
                match self.find_pending(addr) {
                    Some(kp) => {
                        let ghost pc0 = self.pending_clients@[kp as int];
                        let key_slice = self.pending_clients[kp].receive_key.as_slice();
                        proof {
                            assert(key_slice@ == pc0.receive_key@);
                        }
                        let decoded = Packet::decode(buffer, self.protocol_id, Some(key_slice));
                        proof {
                            assert forall|v: PacketV, sq: u64|
                                #![trigger spec_encode(v, old(self).protocol_id_spec(), sq, pc0.receive_key@)]
                                !(v is Request) && buffer@.len() > 2 + NETCODE_MAC_BYTES && buffer@
                                    == spec_encode(
                                    v,
                                    old(self).protocol_id_spec(),
                                    sq,
                                    pc0.receive_key@,
                                ) implies decoded is Ok && decoded.unwrap().1@ == v
                                && decoded.unwrap().0 == sq by {
                                assert(spec_encode(v, self.protocol_id, sq, key_slice@)
                                    == spec_encode(
                                    v,
                                    old(self).protocol_id_spec(),
                                    sq,
                                    pc0.receive_key@,
                                ));
                            }
                        }
                        let packet = match decoded {
                            Err(e) => {
                                return Err(e);
                            },
                            Ok((_, p)) => p,
                        };
                        let ghost pending0 = self.pending_clients@;
                        let mut pending = self.pending_clients.remove(kp);
                        pending.last_packet_received_time = self.current_time;
                        match packet {
                            Packet::ConnectionRequest(request) => {
                                self.pending_clients.insert(kp, pending);
                                proof {
                                    lemma_pending_reinsert_wf(
                                        pending0,
                                        self.pending_clients@,
                                        kp as int,
                                        self.pending_clients@[kp as int],
                                    );
                                }
                                match self.handle_connection_request(addr, &request, now_secs) {
                                    Ok(sr) => Ok(sr),
                                    Err(e) => Err(e),
                                }
                            },
                            Packet::Response(response) => {
                                if pending.state == ConnectionState::PendingResponse {
                                    match response.decode(self.challenge_key.as_slice()) {
                                        Err(e) => {
                                            self.pending_clients.insert(kp, pending);
                                            proof {
                                                lemma_pending_reinsert_wf(
                                                    pending0,
                                                    self.pending_clients@,
                                                    kp as int,
                                                    self.pending_clients@[kp as int],
                                                );
                                            }
                                            Err(e)
                                        },
                                        Ok(_) => {
                                            proof {
                                                lemma_pending_remove_keeps_wf(pending0, kp as int);
                                            }
                                            match self.find_free_slot() {
                                                None => Ok(
                                                    ServerResult::PacketToSend(
                                                        Packet::ConnectionDenied,
                                                    ),
                                                ),
                                                Some(slot) => {
                                                    self.events.push(
                                                        ServerEvent::ClientConnected(
                                                            pending.client_id,
                                                        ),
                                                    );
                                                    pending.state = ConnectionState::Connected;
                                                    let client_index = slot;
                                                    self.clients.set(slot, Some(pending));
                                                    proof {
                                                        assert forall|a: int, b: int|
                                                            0 <= a < b < self.clients@.len()
                                                                && self.clients@[a] is Some
                                                                && self.clients@[b] is Some implies (
                                                        #[trigger] self.clients@[a]).unwrap().addr
                                                            != (
                                                        #[trigger] self.clients@[b]).unwrap().addr by {
                                                            assert(pending0[kp as int].addr == addr);
                                                        }
                                                        assert forall|a: int, b: int|
                                                            0 <= a < self.pending_clients@.len()
                                                                && 0 <= b < self.clients@.len()
                                                                && self.clients@[b] is Some implies (
                                                        #[trigger] self.pending_clients@[a]).addr
                                                            != (
                                                        #[trigger] self.clients@[b]).unwrap().addr by {
                                                            assert(self.pending_clients@[a] == (
                                                            if a < kp as int {
                                                                pending0[a]
                                                            } else {
                                                                pending0[a + 1]
                                                            }));
                                                        }
                                                    }
                                                    Ok(
                                                        ServerResult::PacketToSend(
                                                            Packet::KeepAlive(
                                                                ConnectionKeepAlive {
                                                                    max_clients: self.max_clients
                                                                        as u32,
                                                                    client_index: client_index
                                                                        as u32,
                                                                },
                                                            ),
                                                        ),
                                                    )
                                                },
                                            }
                                        },
                                    }
                                } else {
                                    self.pending_clients.insert(kp, pending);
                                    proof {
                                        lemma_pending_reinsert_wf(
                                            pending0,
                                            self.pending_clients@,
                                            kp as int,
                                            self.pending_clients@[kp as int],
                                        );
                                    }
                                    Ok(ServerResult::NoResponse)
                                }
                            },
                            _ => {
                                self.pending_clients.insert(kp, pending);
                                proof {
                                    lemma_pending_reinsert_wf(
                                        pending0,
                                        self.pending_clients@,
                                        kp as int,
                                        self.pending_clients@[kp as int],
                                    );
                                }
                                Ok(ServerResult::NoResponse)
                            },
                        }
                    },
                    None => {
                        let decoded = Packet::decode(buffer, self.protocol_id, None);
                        match decoded {
                            Ok((_, Packet::ConnectionRequest(request))) => {
                                match self.handle_connection_request(addr, &request, now_secs) {
                                    Ok(sr) => Ok(sr),
                                    Err(e) => Err(e),
                                }
                            },
                            Ok(_) => Ok(ServerResult::NoResponse),
                            Err(e) => Err(e),
                        }
                    },
                }
            },
        }
    }

    /// Handle one datagram; every failure is swallowed so the server never
    /// answers a probe.
    pub fn process_packet(&mut self, addr: NetAddr, buffer: &[u8], now_secs: u64) -> (r:
        ServerResult)
        requires
            old(self).wf(),
            old(self).challenge_sequence_spec() < u64::MAX,
        ensures
            final(self).wf(),
            final(self).same_config(*old(self)),
            final(self).current_time_spec() == old(self).current_time_spec(),
            final(self).challenge_sequence_spec() >= old(self).challenge_sequence_spec(),
            buffer@.len() <= 2 + NETCODE_MAC_BYTES ==> r is NoResponse && *final(self) == *old(self),
            ({
                let k = find_addr(old(self).clients_spec(), addr);
                let kp = pending_index(old(self).pending_spec(), addr);
                k == -1 && kp == -1 ==> {
                    &&& final(self).clients_spec() == old(self).clients_spec()
                    &&& final(self).events_spec() == old(self).events_spec()
                    &&& (buffer@.len() > 2 + NETCODE_MAC_BYTES && buffer@[0] != 0 ==> r
                        is NoResponse && *final(self) == *old(self))
                    &&& forall|v: PacketV|
                        #![trigger request_bytes(v)]
                        view_wf(v) && v is Request && buffer@.len() > 2 + NETCODE_MAC_BYTES
                            && buffer@ == request_bytes(v) ==> handshake_reply(
                            old(self).clients_spec(),
                            old(self).pending_spec(),
                            old(self).challenge_sequence_spec(),
                            old(self).connect_key_spec(),
                            old(self).challenge_key_spec(),
                            old(self).protocol_id_spec(),
                            old(self).address_spec(),
                            old(self).current_time_spec(),
                            addr,
                            v->Request_version,
                            v->Request_create,
                            v->Request_expire,
                            v->Request_xnonce,
                            v->Request_data,
                            now_secs,
                            final(self).pending_spec(),
                            final(self).challenge_sequence_spec(),
                            r,
                        )
                }
            }),
    {
        match self.process_packet_internal(addr, buffer, now_secs) {
            Err(_) => ServerResult::NoResponse,
            Ok(r) => r,
        }
    }

    /// Slot of the connected client at `addr`.
    fn find_client_by_addr(&self, addr: NetAddr) -> (r: Option<usize>)
        ensures
            match r {
                None => find_addr(self.clients_spec(), addr) == -1 && forall|j: int|
                    0 <= j < self.clients_spec().len() ==> !((#[trigger] self.clients_spec()[j])
                        is Some && self.clients_spec()[j].unwrap().addr == addr),
                Some(k) => k < self.clients_spec().len() && find_addr(self.clients_spec(), addr)
                    == k && self.clients_spec()[k as int] is Some
                    && self.clients_spec()[k as int].unwrap().addr == addr,
            },
    {
        let mut i: usize = 0;
        let n = self.clients.len();
        while i < n
            invariant
                i <= n,
                n == self.clients@.len(),
                forall|j: int|
                    0 <= j < i ==> !((#[trigger] self.clients@[j]) is Some
                        && self.clients@[j].unwrap().addr == addr),
            decreases n - i,
        {
            match &self.clients[i] {
                Some(c) => {
                    if c.addr == addr {
                        proof {
                            lemma_find_addr_first(self.clients@, addr, i as int);
                        }
                        return Some(i);
                    }
                },
                None => {},
            }
            i += 1;
        }
        proof {
            lemma_find_addr_none(self.clients@, addr);
        }
        None
    }

    /// Slot of the connected client with `client_id`.
    fn find_client_by_id(&self, id: u64) -> (r: Option<usize>)
        ensures
            match r {
                None => find_id(self.clients_spec(), id) == -1 && forall|j: int|
                    0 <= j < self.clients_spec().len() ==> !((#[trigger] self.clients_spec()[j])
                        is Some && self.clients_spec()[j].unwrap().client_id == id),
                Some(k) => k < self.clients_spec().len() && find_id(self.clients_spec(), id) == k
                    && self.clients_spec()[k as int] is Some
                    && self.clients_spec()[k as int].unwrap().client_id == id,
            },
    {
        let mut i: usize = 0;
        let n = self.clients.len();
        while i < n
            invariant
                i <= n,
                n == self.clients@.len(),
                forall|j: int|
                    0 <= j < i ==> !((#[trigger] self.clients@[j]) is Some
                        && self.clients@[j].unwrap().client_id == id),
            decreases n - i,
        {
            match &self.clients[i] {
                Some(c) => {
                    if c.client_id == id {
                        proof {
                            lemma_find_id_first(self.clients@, id, i as int);
                        }
                        return Some(i);
                    }
                },
                None => {},
            }
            i += 1;
        }
        proof {
            lemma_find_id_none(self.clients@, id);
        }
        None
    }

    /// Slot of the connected client with `client_id`, empty slots skipped;
    /// the same lookup as `find_client_by_id`, kept for callers that hold a
    /// slot table directly.
    pub fn find_client_slot_by_id(&self, id: u64) -> (r: Option<usize>)
        ensures
            match r {
                None => find_id(self.clients_spec(), id) == -1 && forall|j: int|
                    0 <= j < self.clients_spec().len() ==> !((#[trigger] self.clients_spec()[j])
                        is Some && self.clients_spec()[j].unwrap().client_id == id),
                Some(k) => find_id(self.clients_spec(), id) == k,
            },
    {
        self.find_client_by_id(id)
    }

    /// First free slot.
    fn find_free_slot(&self) -> (r: Option<usize>)
        ensures
            match r {
                None => first_free_slot(self.clients_spec()) == -1,
                Some(k) => k < self.clients_spec().len() && first_free_slot(self.clients_spec())
                    == k && self.clients_spec()[k as int] is None,
            },
    {
        let mut i: usize = 0;
        let n = self.clients.len();
        while i < n
            invariant
                i <= n,
                n == self.clients@.len(),
                forall|j: int| 0 <= j < i ==> (#[trigger] self.clients@[j]) is Some,
            decreases n - i,
        {
            if self.clients[i].is_none() {
                proof {
                    lemma_first_free_first(self.clients@, i as int);
                }
                return Some(i);
            }
            i += 1;
        }
        proof {
            lemma_first_free_none(self.clients@);
        }
        None
    }

    /// Index of the pending record at `addr`.
    fn find_pending(&self, addr: NetAddr) -> (r: Option<usize>)
        ensures
            match r {
                None => pending_index(self.pending_spec(), addr) == -1 && forall|j: int|
                    0 <= j < self.pending_spec().len() ==> (#[trigger] self.pending_spec()[j]).addr
                        != addr,
                Some(k) => k < self.pending_spec().len() && pending_index(
                    self.pending_spec(),
                    addr,
                ) == k && self.pending_spec()[k as int].addr == addr,
            },
    {
        let mut i: usize = 0;
        let n = self.pending_clients.len();
        while i < n
            invariant
                i <= n,
                n == self.pending_clients@.len(),
                forall|j: int| 0 <= j < i ==> (#[trigger] self.pending_clients@[j]).addr != addr,
            decreases n - i,
        {
            if self.pending_clients[i].addr == addr {
                proof {
                    lemma_pending_index_first(self.pending_clients@, addr, i as int);
                }
                return Some(i);
            }
            i += 1;
        }
        proof {
            lemma_pending_index_none(self.pending_clients@, addr);
        }
        None
    }
}


/// A connection's receive-timeout has lapsed at session time `t`.
pub open spec fn timed_out(c: Connection, t: u64) -> bool {
    c.timeout_seconds > 0 && c.last_packet_received_time + (c.timeout_seconds as int) * 1000 < t
}

/// The slot is vacated at `t`: timed out or already marked disconnected.
pub open spec fn vacate(c: Connection, t: u64) -> bool {
    timed_out(c, t) || c.state == ConnectionState::Disconnected
}

/// What one slot becomes on a tick at session time `t`.
pub open spec fn update_slot(o: Option<Connection>, t: u64) -> Option<Connection> {
    match o {
        None => None,
        Some(c) => if vacate(c, t) {
            None
        } else {
            Some(c)
        },
    }
}

/// Addresses of the slots a tick at `t` vacates, in slot order.
pub open spec fn disconnect_addrs(cl: Seq<Option<Connection>>, t: u64) -> Seq<NetAddr>
    decreases cl.len(),
{
    if cl.len() == 0 {
        Seq::empty()
    } else {
        disconnect_addrs(cl.drop_last(), t) + (match cl.last() {
            Some(c) => if vacate(c, t) {
                seq![c.addr]
            } else {
                Seq::empty()
            },
            None => Seq::empty(),
        })
    }
}

/// The disconnect events a tick at `t` queues, in slot order.
pub open spec fn disconnect_events(cl: Seq<Option<Connection>>, t: u64) -> Seq<ServerEvent>
    decreases cl.len(),
{
    if cl.len() == 0 {
        Seq::empty()
    } else {
        disconnect_events(cl.drop_last(), t) + (match cl.last() {
            Some(c) => if vacate(c, t) {
                seq![ServerEvent::ClientDisconnected(c.client_id)]
            } else {
                Seq::empty()
            },
            None => Seq::empty(),
        })
    }
}

/// A pending handshake's own token window has lapsed at session time `t`.
pub open spec fn pending_expired(c: Connection, t: u64) -> bool {
    (t - c.connect_start_time) / 1000 >= c.expire_timestamp - c.create_timestamp
}

/// The pending records that survive the reaper at `t`, in order.
pub open spec fn retained(p: Seq<Connection>, t: u64) -> Seq<Connection>
    decreases p.len(),
{
    if p.len() == 0 {
        Seq::empty()
    } else {
        retained(p.drop_last(), t) + (if pending_expired(p.last(), t) {
            Seq::empty()
        } else {
            seq![p.last()]
        })
    }
}

proof fn lemma_retained_concat(a: Seq<Connection>, b: Seq<Connection>, t: u64)
    ensures
        retained(a + b, t) == retained(a, t) + retained(b, t),
    decreases b.len(),
{
    if b.len() == 0 {
        assert(a + b =~= a);
        assert(retained(a, t) + retained(b, t) =~= retained(a, t));
    } else {
        assert((a + b).drop_last() =~= a + b.drop_last());
        lemma_retained_concat(a, b.drop_last(), t);
        assert(retained(a, t) + retained(b, t) =~= retained(a, t) + retained(b.drop_last(), t)
            + (retained(b, t).skip(retained(b.drop_last(), t).len() as int)));
        assert(retained(a + b, t) =~= retained(a, t) + retained(b, t));
    }
}

proof fn lemma_find_addr_first(c: Seq<Option<Connection>>, addr: NetAddr, k: int)
    requires
        0 <= k < c.len(),
        c[k] is Some && c[k].unwrap().addr == addr,
        forall|j: int| 0 <= j < k ==> !((#[trigger] c[j]) is Some && c[j].unwrap().addr == addr),
    ensures
        find_addr(c, addr) == k,
    decreases c.len(),
{
    if k > 0 {
        assert(forall|j: int|
            0 <= j < k - 1 ==> !((#[trigger] c.drop_first()[j]) is Some
                && c.drop_first()[j].unwrap().addr == addr));
        assert(c.drop_first()[k - 1] == c[k]);
        lemma_find_addr_first(c.drop_first(), addr, k - 1);
    }
}

/// A found index is in range, occupied and holds the address.
proof fn lemma_find_addr_props(c: Seq<Option<Connection>>, addr: NetAddr)
    ensures
        -1 <= find_addr(c, addr) < c.len(),
        find_addr(c, addr) >= 0 ==> c[find_addr(c, addr)] is Some && c[find_addr(
            c,
            addr,
        )].unwrap().addr == addr,
    decreases c.len(),
{
    if c.len() > 0 {
        lemma_find_addr_props(c.drop_first(), addr);
    }
}

proof fn lemma_find_addr_none(c: Seq<Option<Connection>>, addr: NetAddr)
    requires
        forall|j: int| 0 <= j < c.len() ==> !((#[trigger] c[j]) is Some && c[j].unwrap().addr == addr),
    ensures
        find_addr(c, addr) == -1,
    decreases c.len(),
{
    if c.len() > 0 {
        assert(forall|j: int|
            0 <= j < c.drop_first().len() ==> !((#[trigger] c.drop_first()[j]) is Some
                && c.drop_first()[j].unwrap().addr == addr));
        lemma_find_addr_none(c.drop_first(), addr);
    }
}

proof fn lemma_find_id_first(c: Seq<Option<Connection>>, id: u64, k: int)
    requires
        0 <= k < c.len(),
        c[k] is Some && c[k].unwrap().client_id == id,
        forall|j: int|
            0 <= j < k ==> !((#[trigger] c[j]) is Some && c[j].unwrap().client_id == id),
    ensures
        find_id(c, id) == k,
    decreases c.len(),
{
    if k > 0 {
        assert(forall|j: int|
            0 <= j < k - 1 ==> !((#[trigger] c.drop_first()[j]) is Some
                && c.drop_first()[j].unwrap().client_id == id));
        assert(c.drop_first()[k - 1] == c[k]);
        lemma_find_id_first(c.drop_first(), id, k - 1);
    }
}

proof fn lemma_find_id_none(c: Seq<Option<Connection>>, id: u64)
    requires
        forall|j: int|
            0 <= j < c.len() ==> !((#[trigger] c[j]) is Some && c[j].unwrap().client_id == id),
    ensures
        find_id(c, id) == -1,
    decreases c.len(),
{
    if c.len() > 0 {
        assert(forall|j: int|
            0 <= j < c.drop_first().len() ==> !((#[trigger] c.drop_first()[j]) is Some
                && c.drop_first()[j].unwrap().client_id == id));
        lemma_find_id_none(c.drop_first(), id);
    }
}

proof fn lemma_first_free_first(c: Seq<Option<Connection>>, k: int)
    requires
        0 <= k < c.len(),
        c[k] is None,
        forall|j: int| 0 <= j < k ==> (#[trigger] c[j]) is Some,
    ensures
        first_free_slot(c) == k,
    decreases c.len(),
{
    if k > 0 {
        assert(forall|j: int| 0 <= j < k - 1 ==> (#[trigger] c.drop_first()[j]) is Some);
        assert(c.drop_first()[k - 1] == c[k]);
        lemma_first_free_first(c.drop_first(), k - 1);
    }
}

proof fn lemma_first_free_none(c: Seq<Option<Connection>>)
    requires
        forall|j: int| 0 <= j < c.len() ==> (#[trigger] c[j]) is Some,
    ensures
        first_free_slot(c) == -1,
    decreases c.len(),
{
    if c.len() > 0 {
        assert(forall|j: int| 0 <= j < c.drop_first().len() ==> (#[trigger] c.drop_first()[j]) is Some);
        lemma_first_free_none(c.drop_first());
    }
}

proof fn lemma_pending_index_first(p: Seq<Connection>, addr: NetAddr, k: int)
    requires
        0 <= k < p.len(),
        p[k].addr == addr,
        forall|j: int| 0 <= j < k ==> (#[trigger] p[j]).addr != addr,
    ensures
        pending_index(p, addr) == k,
    decreases p.len(),
{
    if k > 0 {
        assert(forall|j: int| 0 <= j < k - 1 ==> (#[trigger] p.drop_first()[j]).addr != addr);
        assert(p.drop_first()[k - 1] == p[k]);
        lemma_pending_index_first(p.drop_first(), addr, k - 1);
    }
}

proof fn lemma_pending_index_none(p: Seq<Connection>, addr: NetAddr)
    requires
        forall|j: int| 0 <= j < p.len() ==> (#[trigger] p[j]).addr != addr,
    ensures
        pending_index(p, addr) == -1,
    decreases p.len(),
{
    if p.len() > 0 {
        assert(forall|j: int| 0 <= j < p.drop_first().len() ==> (#[trigger] p.drop_first()[j]).addr != addr);
        lemma_pending_index_none(p.drop_first(), addr);
    }
}

/// Removing a pending record keeps addresses pairwise distinct.
proof fn lemma_pending_remove_keeps_wf(p: Seq<Connection>, k: int)
    requires
        0 <= k < p.len(),
        forall|i: int, j: int| 0 <= i < j < p.len() ==> (#[trigger] p[i]).addr != (#[trigger] p[j]).addr,
    ensures
        forall|i: int, j: int|
            0 <= i < j < p.remove(k).len() ==> (#[trigger] p.remove(k)[i]).addr != (
            #[trigger] p.remove(k)[j]).addr,
        forall|i: int|
            0 <= i < p.remove(k).len() ==> #[trigger] p.remove(k)[i] == (if i < k {
                p[i]
            } else {
                p[i + 1]
            }),
{
    assert(p.remove(k) =~= p.take(k) + p.skip(k + 1));
    assert forall|i: int, j: int|
        0 <= i < j < p.remove(k).len() implies (#[trigger] p.remove(k)[i]).addr != (
    #[trigger] p.remove(k)[j]).addr by {
        let wi: int = if i < k { i } else { i + 1 };
        let wj: int = if j < k { j } else { j + 1 };
        assert(p[wi] == p.remove(k)[i]);
        assert(p[wj] == p.remove(k)[j]);
    }
}

/// `pending_index` stays within the sequence.
proof fn lemma_pending_index_range(p: Seq<Connection>, addr: NetAddr)
    ensures
        -1 <= pending_index(p, addr) < p.len(),
    decreases p.len(),
{
    if p.len() > 0 {
        lemma_pending_index_range(p.drop_first(), addr);
    }
}

/// When no pending record serves `addr`, every listed address differs.
proof fn lemma_pending_index_at_least(p: Seq<Connection>, addr: NetAddr, i: int)
    requires
        pending_index(p, addr) == -1,
        0 <= i < p.len(),
    ensures
        p[i].addr != addr,
    decreases p.len(),
{
    lemma_pending_index_range(p.drop_first(), addr);
    if i > 0 {
        assert(p.drop_first()[i - 1] == p[i]);
        lemma_pending_index_at_least(p.drop_first(), addr, i - 1);
    }
}

/// Octet-wise equality of two byte vectors.
fn vecs_equal(a: &Vec<u8>, b: &Vec<u8>) -> (r: bool)
    ensures
        r <==> a@ == b@,
{
    if a.len() != b.len() {
        proof {
            assert(a@.len() != b@.len());
        }
        return false;
    }
    let mut i: usize = 0;
    let n = a.len();
    while i < n
        invariant
            i <= n,
            n == a@.len() == b@.len(),
            forall|j: int| 0 <= j < i ==> a@[j] == b@[j],
        decreases n - i,
    {
        if a[i] != b[i] {
            return false;
        }
        i += 1;
    }
    proof {
        assert(a@ =~= b@);
    }
    true
}

/// Every record the reaper keeps was among the pending records.
proof fn lemma_retained_member(p: Seq<Connection>, t: u64, a: int)
    requires
        0 <= a < retained(p, t).len(),
    ensures
        exists|w: int| 0 <= w < p.len() && #[trigger] p[w] == retained(p, t)[a],
    decreases p.len(),
{
    if p.len() > 0 {
        let r0 = retained(p.drop_last(), t);
        if a < r0.len() {
            lemma_retained_member(p.drop_last(), t, a);
            let w = choose|w: int| 0 <= w < p.drop_last().len() && #[trigger] p.drop_last()[w] == r0[a];
            assert(p[w] == retained(p, t)[a]);
        } else {
            assert(p[p.len() - 1] == retained(p, t)[a]);
        }
    }
}

/// The reaper keeps records in order, so distinct kept records stem from
/// distinct pending records.
proof fn lemma_retained_sub(p: Seq<Connection>, t: u64, a: int, b: int)
    requires
        0 <= a < b < retained(p, t).len(),
        forall|i: int, j: int| 0 <= i < j < p.len() ==> (#[trigger] p[i]).addr != (#[trigger] p[j]).addr,
    ensures
        retained(p, t)[a].addr != retained(p, t)[b].addr,
    decreases p.len(),
{
    if p.len() > 0 {
        let r0 = retained(p.drop_last(), t);
        if b < r0.len() {
            lemma_retained_sub(p.drop_last(), t, a, b);
        } else {
            lemma_retained_member(p.drop_last(), t, a);
            let w = choose|w: int| 0 <= w < p.drop_last().len() && #[trigger] p.drop_last()[w] == r0[a];
            assert(p[w] == retained(p, t)[a]);
            assert(retained(p, t)[b] == p[p.len() - 1]);
        }
    }
}

/// Reinserting a record at the index it was removed from is an update, and
/// keeps the pending invariants when the addresses agree.
proof fn lemma_pending_reinsert_wf(p0: Seq<Connection>, p1: Seq<Connection>, k: int, e: Connection)
    requires
        0 <= k < p0.len(),
        p1 == p0.remove(k).insert(k, e),
        e.addr == p0[k].addr,
    ensures
        p1 == p0.update(k, e),
        forall|i: int|
            0 <= i < p1.len() ==> (#[trigger] p1[i]).addr == p0[i].addr,
        p1.len() == p0.len(),
{
    assert(p0.remove(k).insert(k, e) =~= p0.update(k, e));
}

/// Law: filling an empty slot with a client id that no connected client
/// holds keeps client ids pairwise distinct across the slot table. (The
/// handshake checks the id against the connected clients only, so the
/// hypothesis is what the request path establishes; two pending handshakes
/// presenting the same id from different addresses race at the response
/// step and are not covered.)
pub proof fn lemma_client_ids_stay_unique(
    clients: Seq<Option<Connection>>,
    slot: int,
    c: Connection,
)
    requires
        0 <= slot < clients.len(),
        clients[slot] is None,
        forall|i: int, j: int|
            0 <= i < j < clients.len() && clients[i] is Some && clients[j] is Some ==> (
            #[trigger] clients[i]).unwrap().client_id != (#[trigger] clients[j]).unwrap().client_id,
        forall|i: int|
            0 <= i < clients.len() && clients[i] is Some ==> (
            #[trigger] clients[i]).unwrap().client_id != c.client_id,
    ensures
        forall|i: int, j: int|
            0 <= i < j < clients.len() && #[trigger] clients.update(slot, Some(c))[i] is Some
                && #[trigger] clients.update(slot, Some(c))[j] is Some ==> clients.update(
                slot,
                Some(c),
            )[i].unwrap().client_id != clients.update(slot, Some(c))[j].unwrap().client_id,
{
}

} // verus!
