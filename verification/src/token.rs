//! The private portion of a connect token.
//!
//! The token issuer seals a 1008-octet record under the key it shares with
//! the server, using the 24-octet nonce that travels in the request. The
//! record binds a client id to its session keys, its timeout, up to 32
//! server addresses and 256 octets of user data; unused address slots and
//! the tail of the record are zero.

use vstd::prelude::*;
use vstd::bytes::{
    spec_u64_to_le_bytes, u64_to_le_bytes, u64_from_le_bytes, spec_u32_to_le_bytes,
    u32_to_le_bytes, u32_from_le_bytes, spec_u16_to_le_bytes, u16_to_le_bytes, u16_from_le_bytes,
    spec_u128_to_le_bytes, u128_to_le_bytes, u128_from_le_bytes,
    lemma_auto_spec_u64_to_from_le_bytes, lemma_auto_spec_u32_to_from_le_bytes,
    lemma_auto_spec_u16_to_from_le_bytes, lemma_auto_spec_u128_to_from_le_bytes,
};
use vstd::slice::{slice_subrange, slice_to_vec};
use crate::packet::{NetcodeError, version_info, version_info_spec};
use crate::crypto::{xsealed, xchacha_seal, xchacha_open};

verus! {

/// A peer address as plain values: the host's octets packed big-endian into
/// one integer (an IPv4 host uses the low 32 bits), whether it is an IPv6
/// host, and the port.
#[derive(Debug, Clone, Copy, PartialEq, Eq, Structural, Hash)]
pub struct NetAddr {
    pub ip: u128,
    pub is_v6: bool,
    pub port: u16,
}

/// The decrypted private connect token.
#[derive(Debug)]
pub struct PrivateConnectToken {
    pub client_id: u64,
    pub timeout_seconds: i32,
    pub server_addresses: Vec<NetAddr>,
    pub client_to_server_key: Vec<u8>,
    pub server_to_client_key: Vec<u8>,
    pub user_data: Vec<u8>,
}

/// Mathematical view of a private connect token.
#[verifier::ext_equal]
pub struct TokenV {
    pub client_id: u64,
    pub timeout_seconds: i32,
    pub server_addresses: Seq<NetAddr>,
    pub client_to_server_key: Seq<u8>,
    pub server_to_client_key: Seq<u8>,
    pub user_data: Seq<u8>,
}

impl View for PrivateConnectToken {
    type V = TokenV;

    open spec fn view(&self) -> TokenV {
        TokenV {
            client_id: self.client_id,
            timeout_seconds: self.timeout_seconds,
            server_addresses: self.server_addresses@,
            client_to_server_key: self.client_to_server_key@,
            server_to_client_key: self.server_to_client_key@,
            user_data: self.user_data@,
        }
    }
}

/// The fixed-size fields have their wire lengths and the host list fits its
/// 32 slots.
pub open spec fn token_wf(v: TokenV) -> bool {
    &&& v.server_addresses.len() <= 32
    &&& v.client_to_server_key.len() == 32
    &&& v.server_to_client_key.len() == 32
    &&& v.user_data.len() == 256
}

/// Octets of address slot `i`: a kind octet, the host, the port and one
/// octet of padding when an address is listed, twenty zeros otherwise.
pub open spec fn slot_bytes(a: Seq<NetAddr>, i: int) -> Seq<u8> {
    if 0 <= i < a.len() {
        seq![
            if a[i].is_v6 {
                1u8
            } else {
                0u8
            },
        ] + spec_u128_to_le_bytes(a[i].ip) + spec_u16_to_le_bytes(a[i].port) + seq![0u8]
    } else {
        zero_pad(20)
    }
}

/// The first `k` address slots, in order.
pub open spec fn addr_slots(a: Seq<NetAddr>, k: int) -> Seq<u8>
    decreases k,
{
    if k <= 0 {
        Seq::empty()
    } else {
        addr_slots(a, k - 1) + slot_bytes(a, k - 1)
    }
}

/// `k` zero octets.
pub open spec fn zero_pad(k: int) -> Seq<u8> {
    Seq::new(k as nat, |i: int| 0u8)
}

/// The 1008-octet plaintext layout of a private connect token.
pub open spec fn private_token_bytes(v: TokenV) -> Seq<u8> {
    spec_u64_to_le_bytes(v.client_id) + spec_u32_to_le_bytes(v.timeout_seconds as u32)
        + spec_u32_to_le_bytes(v.server_addresses.len() as u32) + addr_slots(v.server_addresses, 32)
        + v.client_to_server_key + v.server_to_client_key + v.user_data + zero_pad(32)
}

/// Associated data binding a sealed token to the protocol and its expiry.
pub open spec fn token_aad(protocol_id: u64, expire_timestamp: u64) -> Seq<u8> {
    version_info_spec() + spec_u64_to_le_bytes(protocol_id) + spec_u64_to_le_bytes(
        expire_timestamp,
    )
}

pub(crate) fn token_aad_bytes(protocol_id: u64, expire_timestamp: u64) -> (r: Vec<u8>)
    ensures
        r@ == token_aad(protocol_id, expire_timestamp),
{
    proof {
        lemma_auto_spec_u64_to_from_le_bytes();
    }
    let mut r = version_info();
    let mut p = u64_to_le_bytes(protocol_id);
    r.append(&mut p);
    let mut e = u64_to_le_bytes(expire_timestamp);
    r.append(&mut e);
    proof {
        assert(r@ =~= token_aad(protocol_id, expire_timestamp));
    }
    r
}

/// Casting a signed 32-bit value through its unsigned form keeps it.
proof fn lemma_i32_u32_roundtrip(x: i32)
    ensures
        x as u32 as i32 == x,
{
    assert(x as u32 as i32 == x) by (bit_vector);
}

/// The slot area is six octets per slot.
proof fn lemma_addr_slots_len(a: Seq<NetAddr>, k: int)
    requires
        0 <= k,
    ensures
        addr_slots(a, k).len() == 20 * k,
    decreases k,
{
    lemma_auto_spec_u128_to_from_le_bytes();
    lemma_auto_spec_u16_to_from_le_bytes();
    if k > 0 {
        lemma_addr_slots_len(a, k - 1);
    }
}

/// Each slot sits at offset `20 * i` of the slot area.
proof fn lemma_addr_slots_at(a: Seq<NetAddr>, k: int, i: int)
    requires
        0 <= i < k,
    ensures
        addr_slots(a, k).subrange(20 * i, 20 * i + 20) == slot_bytes(a, i),
    decreases k,
{
    lemma_auto_spec_u128_to_from_le_bytes();
    lemma_auto_spec_u16_to_from_le_bytes();
    lemma_addr_slots_len(a, k);
    if i == k - 1 {
        lemma_addr_slots_len(a, k - 1);
        assert(addr_slots(a, k).subrange(20 * i, 20 * i + 20) =~= slot_bytes(a, k - 1));
    } else {
        lemma_addr_slots_at(a, k - 1, i);
        lemma_addr_slots_len(a, k - 1);
        assert(addr_slots(a, k).subrange(20 * i, 20 * i + 20) =~= addr_slots(a, k - 1).subrange(
            20 * i,
            20 * i + 20,
        ));
    }
}

/// Field offsets of the private-token layout.
proof fn lemma_private_token_fields(v: TokenV)
    requires
        token_wf(v),
    ensures
        private_token_bytes(v).len() == 1008,
        private_token_bytes(v).subrange(0, 8) == spec_u64_to_le_bytes(v.client_id),
        private_token_bytes(v).subrange(8, 12) == spec_u32_to_le_bytes(v.timeout_seconds as u32),
        private_token_bytes(v).subrange(12, 16) == spec_u32_to_le_bytes(
            v.server_addresses.len() as u32,
        ),
        forall|i: int|
            0 <= i < 32 ==> private_token_bytes(v).subrange(16 + 20 * i, 16 + 20 * i + 20)
                == slot_bytes(v.server_addresses, i),
        private_token_bytes(v).subrange(656, 688) == v.client_to_server_key,
        private_token_bytes(v).subrange(688, 720) == v.server_to_client_key,
        private_token_bytes(v).subrange(720, 976) == v.user_data,
{
    lemma_auto_spec_u64_to_from_le_bytes();
    lemma_auto_spec_u32_to_from_le_bytes();
    lemma_addr_slots_len(v.server_addresses, 32);
    let b = private_token_bytes(v);
    assert(b.subrange(0, 8) =~= spec_u64_to_le_bytes(v.client_id));
    assert(b.subrange(8, 12) =~= spec_u32_to_le_bytes(v.timeout_seconds as u32));
    assert(b.subrange(12, 16) =~= spec_u32_to_le_bytes(v.server_addresses.len() as u32));
    assert(b.subrange(16, 656) =~= addr_slots(v.server_addresses, 32));
    assert forall|i: int|
        0 <= i < 32 implies b.subrange(16 + 20 * i, 16 + 20 * i + 20) == slot_bytes(
        v.server_addresses,
        i,
    ) by {
        lemma_addr_slots_at(v.server_addresses, 32, i);
        assert(b.subrange(16 + 20 * i, 16 + 20 * i + 20) =~= addr_slots(
            v.server_addresses,
            32,
        ).subrange(20 * i, 20 * i + 20));
    }
    assert(b.subrange(656, 688) =~= v.client_to_server_key);
    assert(b.subrange(688, 720) =~= v.server_to_client_key);
    assert(b.subrange(720, 976) =~= v.user_data);
}

impl PrivateConnectToken {
    /// Serialize the token into its fixed 1008-octet plaintext layout.
    pub fn to_bytes(&self) -> (r: Vec<u8>)
        requires
            token_wf(self@),
        ensures
            r@ == private_token_bytes(self@),
            r@.len() == 1008,
    {
        proof {
            lemma_auto_spec_u64_to_from_le_bytes();
            lemma_auto_spec_u32_to_from_le_bytes();
            lemma_auto_spec_u16_to_from_le_bytes();
            lemma_private_token_fields(self@);
        }
        let mut out = u64_to_le_bytes(self.client_id);
        let mut f = u32_to_le_bytes(self.timeout_seconds as u32);
        out.append(&mut f);
        let count = self.server_addresses.len();
        let mut f = u32_to_le_bytes(count as u32);
        out.append(&mut f);
        let ghost a = self.server_addresses@;
        let mut i: usize = 0;
        while i < 32
            invariant
                i <= 32,
                a == self.server_addresses@,
                count == a.len() <= 32,
                out@ == spec_u64_to_le_bytes(self@.client_id) + spec_u32_to_le_bytes(
                    self@.timeout_seconds as u32,
                ) + spec_u32_to_le_bytes(a.len() as u32) + addr_slots(a, i as int),
            decreases 32 - i,
        {
            proof {
                lemma_auto_spec_u128_to_from_le_bytes();
                lemma_auto_spec_u16_to_from_le_bytes();
            }
            if i < count {
                let addr = self.server_addresses[i];
                out.push(
                    if addr.is_v6 {
                        1u8
                    } else {
                        0u8
                    },
                );
                let mut f = u128_to_le_bytes(addr.ip);
                out.append(&mut f);
                let mut f = u16_to_le_bytes(addr.port);
                out.append(&mut f);
                out.push(0u8);
            } else {
                let mut f: Vec<u8> = vec![0u8; 20];
                proof {
                    assert(f@ =~= zero_pad(20));
                }
                out.append(&mut f);
            }
            proof {
                assert(out@ =~= spec_u64_to_le_bytes(self@.client_id) + spec_u32_to_le_bytes(
                    self@.timeout_seconds as u32,
                ) + spec_u32_to_le_bytes(a.len() as u32) + addr_slots(a, i as int + 1));
            }
            i += 1;
        }
        let mut f = slice_to_vec(self.client_to_server_key.as_slice());
        out.append(&mut f);
        let mut f = slice_to_vec(self.server_to_client_key.as_slice());
        out.append(&mut f);
        let mut f = slice_to_vec(self.user_data.as_slice());
        out.append(&mut f);
        let mut f: Vec<u8> = vec![0u8; 32];
        proof {
            assert(f@ =~= zero_pad(32));
        }
        out.append(&mut f);
        proof {
            assert(out@ =~= private_token_bytes(self@));
        }
        out
    }

    /// Parse the fixed plaintext layout back into a token. Inverts
    /// `to_bytes` on every well-formed token.
    pub fn from_bytes(b: &[u8]) -> (r: Result<PrivateConnectToken, NetcodeError>)
        ensures
            forall|v: TokenV|
                token_wf(v) && b@ == private_token_bytes(v) ==> r is Ok && #[trigger] (
                r.unwrap()@) =~= v,
            r is Ok ==> token_wf(r.unwrap()@),
    {
        proof {
            lemma_auto_spec_u64_to_from_le_bytes();
            lemma_auto_spec_u32_to_from_le_bytes();
            lemma_auto_spec_u16_to_from_le_bytes();
            assert forall|v: TokenV| token_wf(v) && b@ == private_token_bytes(v) implies b@.len()
                == 1008 by {
                lemma_private_token_fields(v);
            }
        }
        if b.len() != 1008 {
            return Err(NetcodeError::InvalidToken);
        }
        let client_id = u64_from_le_bytes(slice_subrange(b, 0, 8));
        let timeout_u = u32_from_le_bytes(slice_subrange(b, 8, 12));
        let timeout_seconds = timeout_u as i32;
        let count_u = u32_from_le_bytes(slice_subrange(b, 12, 16));
        proof {
            assert forall|v: TokenV| token_wf(v) && b@ == private_token_bytes(v) implies count_u
                == v.server_addresses.len() && timeout_seconds == v.timeout_seconds by {
                lemma_private_token_fields(v);
                lemma_i32_u32_roundtrip(v.timeout_seconds);
            }
        }
        if count_u > 32 {
            return Err(NetcodeError::InvalidToken);
        }
        let count = count_u as usize;
        let mut server_addresses: Vec<NetAddr> = Vec::new();
        let mut i: usize = 0;
        while i < count
            invariant
                i <= count,
                count <= 32,
                b@.len() == 1008,
                server_addresses@.len() == i,
                forall|v: TokenV|
                    #![auto]
                    token_wf(v) && b@ == private_token_bytes(v) ==> count
                        == v.server_addresses.len(),
                forall|v: TokenV, j: int|
                    #![auto]
                    token_wf(v) && b@ == private_token_bytes(v) && 0 <= j < i
                        ==> server_addresses@[j] == v.server_addresses[j],
            decreases count - i,
        {
            proof {
                lemma_auto_spec_u128_to_from_le_bytes();
                lemma_auto_spec_u16_to_from_le_bytes();
            }
            let off: usize = 16 + 20 * i;
            let kind = *vstd::slice::slice_index_get(b, off);
            let is_v6 = kind != 0;
            let ip = u128_from_le_bytes(slice_subrange(b, off + 1, off + 17));
            let port = u16_from_le_bytes(slice_subrange(b, off + 17, off + 19));
            server_addresses.push(NetAddr { ip, is_v6, port });
            proof {
                assert forall|v: TokenV|
                    token_wf(v) && b@ == private_token_bytes(v) implies server_addresses@[i as int]
                    == v.server_addresses[i as int] by {
                    lemma_private_token_fields(v);
                    assert(b@.subrange(16 + 20 * i, 16 + 20 * i + 20) == slot_bytes(
                        v.server_addresses,
                        i as int,
                    ));
                    assert(b@[off as int] == slot_bytes(v.server_addresses, i as int)[0]);
                    assert(b@.subrange(off as int + 1, off as int + 17) =~= slot_bytes(
                        v.server_addresses,
                        i as int,
                    ).subrange(1, 17));
                    assert(b@.subrange(off as int + 17, off as int + 19) =~= slot_bytes(
                        v.server_addresses,
                        i as int,
                    ).subrange(17, 19));
                    assert(slot_bytes(v.server_addresses, i as int).subrange(1, 17)
                        =~= spec_u128_to_le_bytes(v.server_addresses[i as int].ip));
                    assert(slot_bytes(v.server_addresses, i as int).subrange(17, 19)
                        =~= spec_u16_to_le_bytes(v.server_addresses[i as int].port));
                }
            }
            i += 1;
        }
        let client_to_server_key = slice_to_vec(slice_subrange(b, 656, 688));
        let server_to_client_key = slice_to_vec(slice_subrange(b, 688, 720));
        let user_data = slice_to_vec(slice_subrange(b, 720, 976));
        let token = PrivateConnectToken {
            client_id,
            timeout_seconds,
            server_addresses,
            client_to_server_key,
            server_to_client_key,
            user_data,
        };
        proof {
            assert forall|v: TokenV| token_wf(v) && b@ == private_token_bytes(v) implies token@
                =~= v by {
                lemma_private_token_fields(v);
                assert(token@.server_addresses =~= v.server_addresses);
            }
        }
        Ok(token)
    }

    /// Seal the token under the connect key with the given extended nonce,
    /// bound to the protocol id and the expiry.
    pub fn encode(
        &self,
        protocol_id: u64,
        expire_timestamp: u64,
        xnonce: &[u8],
        key: &[u8],
    ) -> (r: Result<Vec<u8>, NetcodeError>)
        requires
            token_wf(self@),
            xnonce@.len() == 24,
            key@.len() == 32,
        ensures
            r is Ok,
            r is Ok ==> r.unwrap()@ == xsealed(
                key@,
                xnonce@,
                token_aad(protocol_id, expire_timestamp),
                private_token_bytes(self@),
            ) && r.unwrap()@.len() == 1024,
    {
        let pt = self.to_bytes();
        let aad = token_aad_bytes(protocol_id, expire_timestamp);
        match xchacha_seal(key, xnonce, aad.as_slice(), pt.as_slice()) {
            Ok(ct) => Ok(ct),
            Err(_) => Err(NetcodeError::CryptoError),
        }
    }

    /// Open and parse a sealed private token. Inverts `encode` under the
    /// same key, nonce and associated data; any opening failure is
    /// `InvalidToken`.
    pub fn decode(
        data: &[u8],
        protocol_id: u64,
        expire_timestamp: u64,
        xnonce: &[u8],
        key: &[u8],
    ) -> (r: Result<PrivateConnectToken, NetcodeError>)
        requires
            xnonce@.len() == 24,
            key@.len() == 32,
        ensures
            forall|v: TokenV|
                token_wf(v) && data@ == xsealed(
                    key@,
                    xnonce@,
                    token_aad(protocol_id, expire_timestamp),
                    private_token_bytes(v),
                ) ==> r is Ok && #[trigger] (r.unwrap()@) =~= v,
            r is Ok ==> token_wf(r.unwrap()@),
            (forall|pt: Seq<u8>|
                data@ != xsealed(key@, xnonce@, token_aad(protocol_id, expire_timestamp), pt))
                ==> r == Result::<PrivateConnectToken, NetcodeError>::Err(
                NetcodeError::InvalidToken,
            ),
    {
        let aad = token_aad_bytes(protocol_id, expire_timestamp);
        let pt = match xchacha_open(key, xnonce, aad.as_slice(), data) {
            Ok(pt) => pt,
            Err(_) => {
                return Err(NetcodeError::InvalidToken);
            },
        };
        match PrivateConnectToken::from_bytes(pt.as_slice()) {
            Ok(token) => Ok(token),
            Err(_) => Err(NetcodeError::InvalidToken),
        }
    }
}

} // verus!
