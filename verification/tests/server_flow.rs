use renet_core::packet::{ConnectionRequest, NetcodeError, Packet, version_info};
use renet_core::server::{Server, ServerEvent, ServerResult};
use renet_core::token::{NetAddr, PrivateConnectToken};

const PROTOCOL_ID: u64 = 7;
const NOW_SECS: u64 = 1000;

fn private_key() -> [u8; 32] {
    *b"an example very very secret key."
}

fn make_token(client_id: u64, server_addr: NetAddr) -> PrivateConnectToken {
    PrivateConnectToken {
        client_id,
        timeout_seconds: 5,
        server_addresses: vec![server_addr],
        client_to_server_key: vec![1u8; 32],
        server_to_client_key: vec![2u8; 32],
        user_data: vec![0u8; 256],
    }
}

fn make_request(client_id: u64, server_addr: NetAddr) -> ConnectionRequest {
    let token = make_token(client_id, server_addr);
    let xnonce = vec![9u8; 24];
    let expire = NOW_SECS + 3;
    let data = token.encode(PROTOCOL_ID, expire, &xnonce, &private_key()).unwrap();
    ConnectionRequest {
        version_info: version_info(),
        protocol_id: PROTOCOL_ID,
        create_timestamp: NOW_SECS,
        expire_timestamp: expire,
        xnonce,
        data,
    }
}

/// Drive one client through request, challenge and response; return the
/// keep-alive slot index.
fn connect(server: &mut Server, client_id: u64, client_addr: NetAddr, server_addr: NetAddr) -> u32 {
    let request = make_request(client_id, server_addr);
    let buffer = Packet::ConnectionRequest(request).encode(PROTOCOL_ID, None).unwrap();
    let result = server.process_packet(client_addr, &buffer, NOW_SECS);
    let ServerResult::PacketToSend(Packet::Challenge(challenge)) = result else {
        unreachable!();
    };
    assert!(server.is_pending(client_addr));
    // echo the challenge back, sealed under the client-to-server session key
    let client_to_server_key = vec![1u8; 32];
    let response = Packet::Response(challenge)
        .encode(PROTOCOL_ID, Some((1, client_to_server_key.as_slice())))
        .unwrap();
    let result = server.process_packet(client_addr, &response, NOW_SECS);
    let ServerResult::PacketToSend(Packet::KeepAlive(keep_alive)) = result else {
        unreachable!();
    };
    assert!(!server.is_pending(client_addr));
    keep_alive.client_index
}

#[test]
fn server_connection() {
    let max_clients: usize = 16;
    let server_addr = NetAddr { ip: 0x7f000001, is_v6: false, port: 5000 };
    let mut server = Server::new(max_clients, PROTOCOL_ID, server_addr, private_key());
    let client_addr = NetAddr { ip: 0x7f000001, is_v6: false, port: 3000 };

    let request = make_request(4, server_addr);
    let buffer = Packet::ConnectionRequest(request).encode(PROTOCOL_ID, None).unwrap();
    let result = server.process_packet(client_addr, &buffer, NOW_SECS);
    assert!(matches!(result, ServerResult::PacketToSend(_)));
    assert!(server.is_pending(client_addr));
}

#[test]
fn handshake_happy_path() {
    let server_addr = NetAddr { ip: 0x7f000001, is_v6: false, port: 5000 };
    let mut server = Server::new(16, PROTOCOL_ID, server_addr, private_key());
    let client_addr = NetAddr { ip: 0x7f000001, is_v6: false, port: 3000 };
    let keep_alive = connect(&mut server, 4, client_addr, server_addr);

    assert_eq!(server.clients_slot(), vec![keep_alive as usize]);
    assert_eq!(server.clients_id(), vec![4]);
    assert!(matches!(server.pop_event(), Some(ServerEvent::ClientConnected(4))));
    assert!(server.pop_event().is_none());
}

#[test]
fn timeout_disconnects() {
    let server_addr = NetAddr { ip: 0x7f000001, is_v6: false, port: 5000 };
    let mut server = Server::new(16, PROTOCOL_ID, server_addr, private_key());
    let client_addr = NetAddr { ip: 0x7f000001, is_v6: false, port: 3000 };
    connect(&mut server, 4, client_addr, server_addr);
    assert!(matches!(server.pop_event(), Some(ServerEvent::ClientConnected(4))));

    // timeout_seconds = 5 and nothing received for 6 seconds
    let disconnects = server.update(6000);
    assert_eq!(disconnects.len(), 1);
    assert_eq!(disconnects[0].0, client_addr);
    assert!(matches!(disconnects[0].1, Packet::Disconnect));
    assert!(server.clients_slot().is_empty());
    assert!(matches!(server.pop_event(), Some(ServerEvent::ClientDisconnected(4))));
}

#[test]
fn server_full_denies() {
    let server_addr = NetAddr { ip: 0x7f000001, is_v6: false, port: 5000 };
    let mut server = Server::new(1, PROTOCOL_ID, server_addr, private_key());
    let first_addr = NetAddr { ip: 0x7f000001, is_v6: false, port: 3000 };
    connect(&mut server, 4, first_addr, server_addr);

    let new_addr = NetAddr { ip: 0x7f000001, is_v6: false, port: 3001 };
    let request = make_request(5, server_addr);
    let buffer = Packet::ConnectionRequest(request).encode(PROTOCOL_ID, None).unwrap();
    let result = server.process_packet(new_addr, &buffer, NOW_SECS);
    assert!(matches!(result, ServerResult::PacketToSend(Packet::ConnectionDenied)));
    assert!(!server.is_pending(new_addr));
}

#[test]
fn duplicate_client_ignored() {
    let server_addr = NetAddr { ip: 0x7f000001, is_v6: false, port: 5000 };
    let mut server = Server::new(16, PROTOCOL_ID, server_addr, private_key());
    let client_addr = NetAddr { ip: 0x7f000001, is_v6: false, port: 3000 };
    connect(&mut server, 4, client_addr, server_addr);

    // same client id from a new address: silently ignored
    let other_addr = NetAddr { ip: 0x7f000001, is_v6: false, port: 3002 };
    let request = make_request(4, server_addr);
    let buffer = Packet::ConnectionRequest(request).encode(PROTOCOL_ID, None).unwrap();
    let result = server.process_packet(other_addr, &buffer, NOW_SECS);
    assert!(matches!(result, ServerResult::NoResponse));
    assert!(!server.is_pending(other_addr));
}

#[test]
fn payload_and_disconnect_dispatch() {
    let server_addr = NetAddr { ip: 0x7f000001, is_v6: false, port: 5000 };
    let mut server = Server::new(16, PROTOCOL_ID, server_addr, private_key());
    let client_addr = NetAddr { ip: 0x7f000001, is_v6: false, port: 3000 };
    connect(&mut server, 4, client_addr, server_addr);

    let client_to_server_key = vec![1u8; 32];
    let payload = Packet::Payload(vec![10, 20, 30])
        .encode(PROTOCOL_ID, Some((2, client_to_server_key.as_slice())))
        .unwrap();
    let result = server.process_packet(client_addr, &payload, NOW_SECS);
    let ServerResult::Payload(data) = result else {
        unreachable!();
    };
    assert_eq!(data, vec![10, 20, 30]);

    let disconnect = Packet::Disconnect
        .encode(PROTOCOL_ID, Some((3, client_to_server_key.as_slice())))
        .unwrap();
    let result = server.process_packet(client_addr, &disconnect, NOW_SECS);
    assert!(matches!(result, ServerResult::NoResponse));
    // the slot is reaped on the next tick
    let disconnects = server.update(1);
    assert_eq!(disconnects.len(), 1);
    assert!(server.clients_slot().is_empty());
}

#[test]
fn update_client_reaps_slot() {
    let server_addr = NetAddr { ip: 0x7f000001, is_v6: false, port: 5000 };
    let mut server = Server::new(16, PROTOCOL_ID, server_addr, private_key());
    let client_addr = NetAddr { ip: 0x7f000001, is_v6: false, port: 3000 };
    let slot = connect(&mut server, 4, client_addr, server_addr) as usize;
    // a live client is left alone
    assert!(server.update_client(slot).is_none());

    // an explicit disconnect marks the record; update_client then reaps it
    let client_to_server_key = vec![1u8; 32];
    let disconnect = Packet::Disconnect
        .encode(PROTOCOL_ID, Some((2, client_to_server_key.as_slice())))
        .unwrap();
    server.process_packet(client_addr, &disconnect, NOW_SECS);
    let (encoded, addr) = server.update_client(slot).unwrap();
    assert!(!encoded.is_empty());
    assert_eq!(addr, client_addr);
    assert!(server.clients_slot().is_empty());
    assert!(matches!(server.pop_event(), Some(ServerEvent::ClientConnected(4))));
    assert!(matches!(server.pop_event(), Some(ServerEvent::ClientDisconnected(4))));
}

#[test]
fn pending_reaper_drops_expired() {
    let server_addr = NetAddr { ip: 0x7f000001, is_v6: false, port: 5000 };
    let mut server = Server::new(16, PROTOCOL_ID, server_addr, private_key());
    let client_addr = NetAddr { ip: 0x7f000001, is_v6: false, port: 3000 };
    let request = make_request(4, server_addr);
    let buffer = Packet::ConnectionRequest(request).encode(PROTOCOL_ID, None).unwrap();
    server.process_packet(client_addr, &buffer, NOW_SECS);
    assert!(server.is_pending(client_addr));

    server.update_pending_connections();
    assert!(server.is_pending(client_addr));

    // expire window is 3 seconds
    server.update(4000);
    server.update_pending_connections();
    assert!(!server.is_pending(client_addr));
}

#[test]
fn validate_rejects_bad_requests() {
    let server_addr = NetAddr { ip: 0x7f000001, is_v6: false, port: 5000 };
    let server = Server::new(16, PROTOCOL_ID, server_addr, private_key());

    let mut bad_version = make_request(4, server_addr);
    bad_version.version_info = vec![0u8; 13];
    assert_eq!(
        server.validate_client_token(&bad_version, NOW_SECS).unwrap_err(),
        NetcodeError::InvalidVersion
    );

    let expired = make_request(4, server_addr);
    assert_eq!(
        server.validate_client_token(&expired, NOW_SECS + 10).unwrap_err(),
        NetcodeError::Expired
    );

    let mut forged = make_request(4, server_addr);
    forged.data = vec![0u8; 1024];
    assert_eq!(
        server.validate_client_token(&forged, NOW_SECS).unwrap_err(),
        NetcodeError::InvalidToken
    );

    let other_host = NetAddr { ip: 1, is_v6: false, port: 1 };
    let not_listed = make_request(4, other_host);
    assert_eq!(
        server.validate_client_token(&not_listed, NOW_SECS).unwrap_err(),
        NetcodeError::NotInHostList
    );

    let good = make_request(4, server_addr);
    let token = server.validate_client_token(&good, NOW_SECS).unwrap();
    assert_eq!(token.client_id, 4);
    assert_eq!(token.timeout_seconds, 5);
}

#[test]
fn encode_reply_uses_session_key() {
    let server_addr = NetAddr { ip: 0x7f000001, is_v6: false, port: 5000 };
    let mut server = Server::new(16, PROTOCOL_ID, server_addr, private_key());
    let client_addr = NetAddr { ip: 0x7f000001, is_v6: false, port: 3000 };

    // nothing is encoded for an address the server does not know
    assert!(server.encode_reply(client_addr, &Packet::ConnectionDenied).is_none());

    let request = make_request(4, server_addr);
    let buffer = Packet::ConnectionRequest(request).encode(PROTOCOL_ID, None).unwrap();
    let ServerResult::PacketToSend(challenge) =
        server.process_packet(client_addr, &buffer, NOW_SECS)
    else {
        unreachable!();
    };
    // the challenge reply for the pending client seals under its send key,
    // which the token set to the server-to-client key
    let first = server.encode_reply(client_addr, &challenge).unwrap();
    let server_to_client_key = vec![2u8; 32];
    let (seq, decoded) =
        Packet::decode(&first, PROTOCOL_ID, Some(server_to_client_key.as_slice())).unwrap();
    assert_eq!(seq, 0);
    assert!(matches!(decoded, Packet::Challenge(_)));

    // the outbound sequence number strictly increases
    let second = server.encode_reply(client_addr, &Packet::ConnectionDenied).unwrap();
    let (seq, _) =
        Packet::decode(&second, PROTOCOL_ID, Some(server_to_client_key.as_slice())).unwrap();
    assert_eq!(seq, 1);
}
