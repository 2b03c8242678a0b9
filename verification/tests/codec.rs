use renet_core::packet::{
    ConnectionKeepAlive, ConnectionRequest, EncryptedChallengeToken, NetcodeError, Packet,
    version_info,
};
use renet_core::token::{NetAddr, PrivateConnectToken};

fn key(b: u8) -> Vec<u8> {
    vec![b; 32]
}

fn round_trip(packet: Packet, sequence: u64) -> (u64, Packet) {
    let k = key(9);
    let encoded = packet.encode(77, Some((sequence, k.as_slice()))).unwrap();
    Packet::decode(&encoded, 77, Some(k.as_slice())).unwrap()
}

#[test]
fn denied_round_trip() {
    let (seq, packet) = round_trip(Packet::ConnectionDenied, 11);
    assert_eq!(seq, 11);
    assert!(matches!(packet, Packet::ConnectionDenied));
}

#[test]
fn disconnect_round_trip() {
    let (seq, packet) = round_trip(Packet::Disconnect, u64::MAX);
    assert_eq!(seq, u64::MAX);
    assert!(matches!(packet, Packet::Disconnect));
}

#[test]
fn payload_round_trip() {
    let data = vec![1u8, 2, 3, 4, 5];
    let (seq, packet) = round_trip(Packet::Payload(data.clone()), 3);
    assert_eq!(seq, 3);
    let Packet::Payload(got) = packet else {
        unreachable!();
    };
    assert_eq!(got, data);
}

#[test]
fn keep_alive_round_trip() {
    let sent = ConnectionKeepAlive { max_clients: 16, client_index: 5 };
    let (_, packet) = round_trip(Packet::KeepAlive(sent), 8);
    let Packet::KeepAlive(got) = packet else {
        unreachable!();
    };
    assert_eq!(got.max_clients, 16);
    assert_eq!(got.client_index, 5);
}

#[test]
fn challenge_round_trip() {
    let token = EncryptedChallengeToken { token_sequence: 42, token_data: vec![7u8; 280] };
    let (_, packet) = round_trip(Packet::Challenge(token), 1);
    let Packet::Challenge(got) = packet else {
        unreachable!();
    };
    assert_eq!(got.token_sequence, 42);
    assert_eq!(got.token_data, vec![7u8; 280]);
}

#[test]
fn response_round_trip() {
    let token = EncryptedChallengeToken { token_sequence: 43, token_data: vec![8u8; 280] };
    let (_, packet) = round_trip(Packet::Response(token), 2);
    let Packet::Response(got) = packet else {
        unreachable!();
    };
    assert_eq!(got.token_sequence, 43);
    assert_eq!(got.token_data, vec![8u8; 280]);
}

#[test]
fn request_round_trip() {
    let request = ConnectionRequest {
        version_info: version_info(),
        protocol_id: 7,
        create_timestamp: 100,
        expire_timestamp: 103,
        xnonce: vec![4u8; 24],
        data: vec![5u8; 1024],
    };
    let encoded = Packet::ConnectionRequest(request).encode(7, None).unwrap();
    assert_eq!(encoded.len(), 1086);
    let (seq, packet) = Packet::decode(&encoded, 7, None).unwrap();
    assert_eq!(seq, 0);
    let Packet::ConnectionRequest(got) = packet else {
        unreachable!();
    };
    assert_eq!(got.version_info, version_info());
    assert_eq!(got.protocol_id, 7);
    assert_eq!(got.create_timestamp, 100);
    assert_eq!(got.expire_timestamp, 103);
    assert_eq!(got.xnonce, vec![4u8; 24]);
    assert_eq!(got.data, vec![5u8; 1024]);
}

#[test]
fn decode_too_small() {
    let buffer = vec![1u8; 18];
    let got = Packet::decode(&buffer, 7, Some(key(9).as_slice()));
    assert_eq!(got.unwrap_err(), NetcodeError::PacketTooSmall);
}

#[test]
fn decode_without_key_rejects_sealed_tags() {
    let buffer = vec![6u8; 40];
    let got = Packet::decode(&buffer, 7, None);
    assert_eq!(got.unwrap_err(), NetcodeError::NoKeyAvailable);
}

#[test]
fn decode_with_wrong_key_fails() {
    let encoded = Packet::ConnectionDenied.encode(77, Some((11, key(9).as_slice()))).unwrap();
    let got = Packet::decode(&encoded, 77, Some(key(8).as_slice()));
    assert_eq!(got.unwrap_err(), NetcodeError::CryptoError);
}

#[test]
fn decode_with_wrong_protocol_fails() {
    let encoded = Packet::ConnectionDenied.encode(77, Some((11, key(9).as_slice()))).unwrap();
    let got = Packet::decode(&encoded, 78, Some(key(9).as_slice()));
    assert_eq!(got.unwrap_err(), NetcodeError::CryptoError);
}

#[test]
fn encode_sealed_without_key_fails() {
    let got = Packet::Disconnect.encode(77, None);
    assert_eq!(got.unwrap_err(), NetcodeError::NoKeyAvailable);
}

#[test]
fn challenge_token_round_trip() {
    let k = key(3);
    let user_data = vec![6u8; 256];
    let token = EncryptedChallengeToken::generate(12345, &user_data, 99, k.as_slice()).unwrap();
    assert_eq!(token.token_sequence, 99);
    assert_eq!(token.token_data.len(), 280);
    let (client_id, got_user_data) = token.decode(k.as_slice()).unwrap();
    assert_eq!(client_id, 12345);
    assert_eq!(got_user_data, user_data);
}

#[test]
fn challenge_token_wrong_key_fails() {
    let token =
        EncryptedChallengeToken::generate(12345, &vec![6u8; 256], 99, key(3).as_slice()).unwrap();
    assert!(token.decode(key(4).as_slice()).is_err());
}

#[test]
fn private_token_round_trip() {
    let token = PrivateConnectToken {
        client_id: 4,
        timeout_seconds: -5,
        server_addresses: vec![
            NetAddr { ip: 0x7f000001, is_v6: false, port: 5000 },
            NetAddr { ip: 0x0a000001, is_v6: false, port: 4000 },
            NetAddr { ip: 0x20010db8000000000000000000000001, is_v6: true, port: 4433 },
        ],
        client_to_server_key: vec![1u8; 32],
        server_to_client_key: vec![2u8; 32],
        user_data: vec![3u8; 256],
    };
    let xnonce = vec![9u8; 24];
    let sealed = token.encode(7, 103, &xnonce, key(5).as_slice()).unwrap();
    assert_eq!(sealed.len(), 1024);
    let got = PrivateConnectToken::decode(&sealed, 7, 103, &xnonce, key(5).as_slice()).unwrap();
    assert_eq!(got.client_id, 4);
    assert_eq!(got.timeout_seconds, -5);
    assert_eq!(got.server_addresses, token.server_addresses);
    assert_eq!(got.client_to_server_key, vec![1u8; 32]);
    assert_eq!(got.server_to_client_key, vec![2u8; 32]);
    assert_eq!(got.user_data, vec![3u8; 256]);
}

#[test]
fn private_token_wrong_key_fails() {
    let token = PrivateConnectToken {
        client_id: 4,
        timeout_seconds: 5,
        server_addresses: vec![NetAddr { ip: 1, is_v6: false, port: 2 }],
        client_to_server_key: vec![1u8; 32],
        server_to_client_key: vec![2u8; 32],
        user_data: vec![3u8; 256],
    };
    let xnonce = vec![9u8; 24];
    let sealed = token.encode(7, 103, &xnonce, key(5).as_slice()).unwrap();
    let got = PrivateConnectToken::decode(&sealed, 7, 103, &xnonce, key(6).as_slice());
    assert_eq!(got.unwrap_err(), NetcodeError::InvalidToken);
}
