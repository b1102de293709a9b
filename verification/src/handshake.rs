//! The server's greeting and the answer to its challenge.

use vstd::prelude::*;
use crate::bytes::{
    copy_range, fits, in_bounds, le_at, le_bytes, lemma_le_at_bound, lemma_pow256_values, push_le,
    read_le,
};
use crate::error::BinlogError;
use crate::text::push_bytes;

verus! {

/// The SHA-1 digest of `data`.
pub uninterp spec fn sha1_digest(data: Seq<u8>) -> Seq<u8>;

/// The SHA-256 digest of `data`.
pub uninterp spec fn sha256_digest(data: Seq<u8>) -> Seq<u8>;

/// Calls `sha1::Sha1::digest`, which hashes `data` in one go. Believed of
/// it: the result is a function of the bytes of `data` alone, named
/// `sha1_digest`, and has 20 bytes, the output size that the crate
/// declares for SHA-1.
#[verifier::external_body]
fn sha1(data: &[u8]) -> (digest: Vec<u8>)
    ensures
        digest@ == sha1_digest(data@),
        digest@.len() == 20,
{
    <sha1::Sha1 as sha1::Digest>::digest(data).to_vec()
}

/// Calls `sha2::Sha256::digest`, which hashes `data` in one go. Believed
/// of it: the result is a function of the bytes of `data` alone, named
/// `sha256_digest`, and has 32 bytes, the output size that the crate
/// declares for SHA-256.
#[verifier::external_body]
fn sha256(data: &[u8]) -> (digest: Vec<u8>)
    ensures
        digest@ == sha256_digest(data@),
        digest@.len() == 32,
{
    <sha2::Sha256 as sha2::Digest>::digest(data).to_vec()
}

/// The bytes of `a`, each combined by exclusive or with the byte of `b` in
/// the same place.
pub open spec fn xor_bytes(a: Seq<u8>, b: Seq<u8>) -> Seq<u8> {
    Seq::new(a.len(), |i: int| a[i] ^ b[i])
}

/// The answer to the server's challenge `nonce` under the plugin
/// `mysql_native_password`, given the two digests of the password and the
/// digest of the challenge with the second of them: nothing for an empty
/// password, and otherwise the first digest combined with the last.
pub open spec fn native_answer(password: Seq<u8>, once: Seq<u8>, mixed: Seq<u8>) -> Seq<u8> {
    if password.len() == 0 {
        Seq::empty()
    } else {
        xor_bytes(once, mixed)
    }
}

/// The answer to the challenge `nonce` under `mysql_native_password`:
/// `SHA1(password)` combined with `SHA1(nonce + SHA1(SHA1(password)))`.
pub open spec fn native_token(password: Seq<u8>, nonce: Seq<u8>) -> Seq<u8> {
    native_answer(
        password,
        sha1_digest(password),
        sha1_digest(nonce + sha1_digest(sha1_digest(password))),
    )
}

/// The answer to the challenge `nonce` under `caching_sha2_password`:
/// `SHA256(password)` combined with
/// `SHA256(SHA256(SHA256(password)) + nonce)`.
pub open spec fn sha2_token(password: Seq<u8>, nonce: Seq<u8>) -> Seq<u8> {
    native_answer(
        password,
        sha256_digest(password),
        sha256_digest(sha256_digest(sha256_digest(password)) + nonce),
    )
}

/// Combines two digests of equal length byte by byte, or gives nothing
/// for an empty password.
fn combine_digests(password: &[u8], once: &[u8], mixed: &[u8]) -> (token: Vec<u8>)
    requires
        once@.len() == mixed@.len(),
    ensures
        token@ == native_answer(password@, once@, mixed@),
{
    let mut token: Vec<u8> = Vec::new();
    if password.len() == 0 {
        return token;
    }
    let mut i: usize = 0;
    while i < once.len()
        invariant
            i <= once@.len(),
            once@.len() == mixed@.len(),
            token@ == Seq::new(i as nat, |k: int| once@[k] ^ mixed@[k]),
        decreases once@.len() - i,
    {
        token.push(once[i] ^ mixed[i]);
        i = i + 1;
        assert(token@ =~= Seq::new(i as nat, |k: int| once@[k] ^ mixed@[k]));
    }
    token
}

/// Computes the answer to the challenge `nonce` under
/// `mysql_native_password`.
pub fn native_password_token(password: &[u8], nonce: &[u8]) -> (token: Vec<u8>)
    ensures
        token@ == native_token(password@, nonce@),
{
    let once: Vec<u8> = sha1(password);
    let twice: Vec<u8> = sha1(once.as_slice());
    let mut salted: Vec<u8> = Vec::new();
    push_bytes(&mut salted, nonce);
    push_bytes(&mut salted, twice.as_slice());
    assert(salted@ =~= nonce@ + twice@);
    let mixed: Vec<u8> = sha1(salted.as_slice());
    combine_digests(password, once.as_slice(), mixed.as_slice())
}

/// Computes the answer to the challenge `nonce` under
/// `caching_sha2_password`.
pub fn sha2_password_token(password: &[u8], nonce: &[u8]) -> (token: Vec<u8>)
    ensures
        token@ == sha2_token(password@, nonce@),
{
    let once: Vec<u8> = sha256(password);
    let twice: Vec<u8> = sha256(once.as_slice());
    let mut salted: Vec<u8> = Vec::new();
    push_bytes(&mut salted, twice.as_slice());
    push_bytes(&mut salted, nonce);
    assert(salted@ =~= twice@ + nonce@);
    let mixed: Vec<u8> = sha256(salted.as_slice());
    combine_digests(password, once.as_slice(), mixed.as_slice())
}

/// The greeting with which a server opens a connection.
#[derive(Debug, Clone, PartialEq, Eq)]
pub struct Handshake {
    pub server_version: Vec<u8>,
    pub connection_id: u32,
    pub capabilities: u32,
    pub character_set: u8,
    pub status: u16,
    /// The challenge that the client's answer is computed from.
    pub nonce: Vec<u8>,
    /// Name of the authentication plugin that the server expects.
    pub auth_plugin: Vec<u8>,
}

/// The mathematical value of a [`Handshake`].
pub struct HandshakeView {
    pub server_version: Seq<u8>,
    pub connection_id: u32,
    pub capabilities: u32,
    pub character_set: u8,
    pub status: u16,
    pub nonce: Seq<u8>,
    pub auth_plugin: Seq<u8>,
}

impl View for Handshake {
    type V = HandshakeView;

    open spec fn view(&self) -> HandshakeView {
        HandshakeView {
            server_version: self.server_version@,
            connection_id: self.connection_id,
            capabilities: self.capabilities,
            character_set: self.character_set,
            status: self.status,
            nonce: self.nonce@,
            auth_plugin: self.auth_plugin@,
        }
    }
}

/// The first position from `pos` on that holds a zero byte, or the end of
/// the bytes.
pub open spec fn zero_from(s: Seq<u8>, pos: int) -> int
    decreases s.len() - pos,
{
    if 0 <= pos < s.len() && s[pos] != 0 {
        zero_from(s, pos + 1)
    } else {
        pos
    }
}

/// Number of bytes of the second part of the challenge, given the length
/// that the greeting states for the whole challenge.
pub open spec fn second_part(stated: int) -> int {
    if stated - 8 > 13 {
        stated - 8
    } else {
        13
    }
}

/// The greeting that the payload `s` encodes, in version 10 of the
/// protocol: the version (1 byte), the server's version up to a zero byte,
/// the connection's id (4), the first 8 bytes of the challenge, a filler
/// (1), the lower capabilities (2), the character set (1), the status (2),
/// the upper capabilities (2), the length of the challenge (1), 10
/// reserved bytes, the rest of the challenge, whose last byte is not part
/// of it, and the plugin's name up to a zero byte or the end. `None` for
/// another version or when bytes are missing.
pub open spec fn handshake_of(s: Seq<u8>) -> Option<HandshakeView> {
    let z = zero_from(s, 1);
    if s.len() < 1 || s[0] != 10 || !in_bounds(s, z, 32) || !in_bounds(
        s,
        z + 32,
        second_part(s[z + 21] as int),
    ) {
        None
    } else {
        let rest = second_part(s[z + 21] as int);
        Some(
            HandshakeView {
                server_version: s.subrange(1, z),
                connection_id: le_at(s, z + 1, 4) as u32,
                capabilities: (le_at(s, z + 14, 2) + 0x1_0000 * le_at(s, z + 19, 2)) as u32,
                character_set: s[z + 16],
                status: le_at(s, z + 17, 2) as u16,
                nonce: s.subrange(z + 5, z + 13) + s.subrange(z + 32, z + 32 + rest - 1),
                auth_plugin: s.subrange(z + 32 + rest, zero_from(s, z + 32 + rest)),
            },
        )
    }
}

/// The capabilities that the client announces: long flags, version 4.1 of
/// the protocol, secure connection, and authentication plugins.
pub const CLIENT_CAPABILITIES: u32 = 0x0008_8204;

/// The client's answer to the greeting: its capabilities (4 bytes), the
/// greatest packet size (4), here zero, the character set (1), 23 zero
/// bytes, the user's name and a zero byte, the answer to the challenge
/// behind its length (1), and the plugin's name and a zero byte.
pub open spec fn handshake_response(
    character_set: u8,
    username: Seq<u8>,
    token: Seq<u8>,
    auth_plugin: Seq<u8>,
) -> Seq<u8> {
    le_bytes(CLIENT_CAPABILITIES as int, 4) + le_bytes(0, 4) + seq![character_set] + Seq::new(
        23,
        |i: int| 0u8,
    ) + username + seq![0u8] + seq![token.len() as u8] + token + auth_plugin + seq![0u8]
}

/// Finds the first zero byte from `pos` on.
fn find_zero(buf: &[u8], pos: usize) -> (at: usize)
    ensures
        at == zero_from(buf@, pos as int),
        pos <= at,
        pos <= buf@.len() ==> at <= buf@.len(),
{
    let mut at: usize = pos;
    while at < buf.len() && buf[at] != 0
        invariant
            pos <= at,
            pos <= buf@.len() ==> at <= buf@.len(),
            zero_from(buf@, pos as int) == zero_from(buf@, at as int),
        decreases buf@.len() - at,
    {
        at = at + 1;
    }
    at
}

impl Handshake {
    /// Decodes the server's greeting. Fails with `Protocol` exactly when
    /// the payload is no greeting of version 10 or is cut short.
    pub fn parse(payload: &[u8]) -> (r: Result<Handshake, BinlogError>)
        ensures
            match handshake_of(payload@) {
                Some(h) => r matches Ok(v) && v@ == h,
                None => r matches Err(e) && e == BinlogError::Protocol,
            },
    {
        if payload.len() < 1 || payload[0] != 10 {
            return Err(BinlogError::Protocol);
        }
        let z: usize = find_zero(payload, 1);
        if !fits(payload, z, 32) {
            return Err(BinlogError::Protocol);
        }
        let stated: usize = payload[z + 21] as usize;
        let rest: usize = if stated > 21 {
            stated - 8
        } else {
            13
        };
        if !fits(payload, z + 32, rest) {
            return Err(BinlogError::Protocol);
        }
        proof {
            lemma_pow256_values();
            lemma_le_at_bound(payload@, z + 1, 4);
            lemma_le_at_bound(payload@, z + 14, 2);
            lemma_le_at_bound(payload@, z + 17, 2);
            lemma_le_at_bound(payload@, z + 19, 2);
        }
        let lower: u32 = read_le(payload, z + 14, 2) as u32;
        let upper: u32 = read_le(payload, z + 19, 2) as u32;
        let mut nonce: Vec<u8> = copy_range(payload, z + 5, z + 13);
        push_bytes(&mut nonce, vstd::slice::slice_subrange(payload, z + 32, z + 32 + rest - 1));
        let name_at: usize = z + 32 + rest;
        let name_end: usize = find_zero(payload, name_at);
        Ok(
            Handshake {
                server_version: copy_range(payload, 1, z),
                connection_id: read_le(payload, z + 1, 4) as u32,
                capabilities: lower + 0x1_0000 * upper,
                character_set: payload[z + 16],
                status: read_le(payload, z + 17, 2) as u16,
                nonce,
                auth_plugin: copy_range(payload, name_at, name_end),
            },
        )
    }

    /// The answer to the challenge of this greeting for `password`.
    pub open spec fn token_for(self, password: Seq<u8>) -> Seq<u8> {
        token_of(self@, password)
    }

    /// Builds the client's answer to this greeting for the given user.
    pub fn respond(&self, username: &[u8], password: &[u8]) -> (r: Vec<u8>)
        ensures
            r@ == handshake_response(
                self.character_set,
                username@,
                self.token_for(password@),
                self.auth_plugin@,
            ),
    {
        let sha2: bool = is_caching_sha2(self.auth_plugin.as_slice());
        let token: Vec<u8> = if sha2 {
            sha2_password_token(password, self.nonce.as_slice())
        } else {
            native_password_token(password, self.nonce.as_slice())
        };
        let mut response: Vec<u8> = Vec::new();
        push_le(&mut response, CLIENT_CAPABILITIES as u64, 4);
        push_le(&mut response, 0, 4);
        response.push(self.character_set);
        let ghost head = response@;
        let mut i: usize = 0;
        while i < 23
            invariant
                i <= 23,
                response@ == head + Seq::new(i as nat, |k: int| 0u8),
            decreases 23 - i,
        {
            response.push(0);
            i = i + 1;
            assert(response@ =~= head + Seq::new(i as nat, |k: int| 0u8));
        }
        push_bytes(&mut response, username);
        response.push(0);
        response.push(token.len() as u8);
        push_bytes(&mut response, token.as_slice());
        push_bytes(&mut response, self.auth_plugin.as_slice());
        response.push(0);
        assert(response@ =~= handshake_response(
            self.character_set,
            username@,
            self.token_for(password@),
            self.auth_plugin@,
        ));
        response
    }
}

/// The answer to the challenge of the greeting `h` for `password`, under
/// the plugin that the greeting names: `caching_sha2_password` where it
/// names that, and `mysql_native_password` otherwise.
pub open spec fn token_of(h: HandshakeView, password: Seq<u8>) -> Seq<u8> {
    if h.auth_plugin == caching_sha2_name() {
        sha2_token(password, h.nonce)
    } else {
        native_token(password, h.nonce)
    }
}

/// The answer to a request to authenticate with another plugin. The
/// request holds the byte `fe`, the plugin's name up to a zero byte, and a
/// new challenge, whose last byte, where it is zero, is not part of it.
/// `None` where the payload is no such request.
pub open spec fn switch_answer(payload: Seq<u8>, password: Seq<u8>) -> Option<Seq<u8>> {
    let z = zero_from(payload, 1);
    if payload.len() < 1 || payload[0] != 0xfe || z >= payload.len() {
        None
    } else {
        let end = if payload.len() - 1 > z && payload[payload.len() - 1] == 0 {
            payload.len() - 1
        } else {
            payload.len() as int
        };
        Some(
            if payload.subrange(1, z) == caching_sha2_name() {
                sha2_token(password, payload.subrange(z + 1, end))
            } else {
                native_token(password, payload.subrange(z + 1, end))
            },
        )
    }
}

/// Answers a request to authenticate with another plugin.
pub fn answer_switch(payload: &[u8], password: &[u8]) -> (r: Option<Vec<u8>>)
    ensures
        match switch_answer(payload@, password@) {
            Some(t) => r matches Some(v) && v@ == t,
            None => r is None,
        },
{
    if payload.len() < 1 || payload[0] != 0xfe {
        return None;
    }
    let z: usize = find_zero(payload, 1);
    if z >= payload.len() {
        return None;
    }
    let end: usize = if payload.len() - 1 > z && payload[payload.len() - 1] == 0 {
        payload.len() - 1
    } else {
        payload.len()
    };
    let nonce = vstd::slice::slice_subrange(payload, z + 1, end);
    if is_caching_sha2(vstd::slice::slice_subrange(payload, 1, z)) {
        Some(sha2_password_token(password, nonce))
    } else {
        Some(native_password_token(password, nonce))
    }
}

/// The name `caching_sha2_password`.
pub open spec fn caching_sha2_name() -> Seq<u8> {
    seq![
        99u8,
        97u8,
        99u8,
        104u8,
        105u8,
        110u8,
        103u8,
        95u8,
        115u8,
        104u8,
        97u8,
        50u8,
        95u8,
        112u8,
        97u8,
        115u8,
        115u8,
        119u8,
        111u8,
        114u8,
        100u8,
    ]
}

/// Whether `name` is `caching_sha2_password`.
pub fn is_caching_sha2(name: &[u8]) -> (b: bool)
    ensures
        b == (name@ == caching_sha2_name()),
{
    if name.len() != 21 {
        return false;
    }
    let b: bool = name[0] == 99 && name[1] == 97 && name[2] == 99 && name[3] == 104 && name[4]
        == 105 && name[5] == 110 && name[6] == 103 && name[7] == 95 && name[8] == 115 && name[9]
        == 104 && name[10] == 97 && name[11] == 50 && name[12] == 95 && name[13] == 112
        && name[14] == 97 && name[15] == 115 && name[16] == 115 && name[17] == 119 && name[18]
        == 111 && name[19] == 114 && name[20] == 100;
    proof {
        if b {
            assert(name@ =~= caching_sha2_name());
        }
    }
    b
}

} // verus!
