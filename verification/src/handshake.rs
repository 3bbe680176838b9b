//! The client side of the salt-exchange handshake.
//!
//! The client repeats request → challenge → response → accept under
//! per-step timeouts; the packet building and parsing live here, the
//! waiting loop belongs to the process that owns the socket.

use vstd::prelude::*;

use crate::error::NetError;
use crate::header::spec_le8;
use crate::int_buffer::{spec_u32_le, spec_u64_le, IntBuffer};
use crate::{bytes_with_header, spec_magic, spec_packet_type_of_u8, Bytes, PacketType};

verus! {

/// How long the client waits for each handshake reply, in milliseconds.
pub const HANDSHAKE_REPLY_TIMEOUT_MS: u64 = 150;

/// How many times each handshake step is retried.
pub const HANDSHAKE_RETRIES: usize = 5;

/// What a finished handshake hands the connection: the shared key and
/// the server-assigned id.
#[derive(Debug, Clone, Copy)]
pub struct ConnectionResponse {
    pub session_key: u64,
    pub connection_id: u32,
}

pub struct ConnectionHandshake {
    pub client_salt: u64,
    pub server_salt: Option<u64>,
}

impl ConnectionHandshake {
    /// Starts an attempt under a fresh random salt.
    pub fn new() -> (r: Self)
        ensures
            r.server_salt is None,
    {
        ConnectionHandshake { client_salt: crate::salt::random_u64(), server_salt: None }
    }

    /// Restarts the salt exchange for another overall attempt.
    pub fn reset(&mut self)
        ensures
            final(self).client_salt == old(self).client_salt,
            final(self).server_salt is None,
    {
        self.server_salt = None;
    }

    /// The connection-request datagram: magic, the request octet, the
    /// client's salt.
    pub fn send_connection_request(&self) -> (r: Bytes)
        ensures
            r@ =~= spec_magic() + seq![1u8] + spec_le8(self.client_salt),
    {
        let mut buffer = bytes_with_header(9);
        let mut int_buffer = IntBuffer::new_at(4);

        int_buffer.write_u8(1, &mut buffer);
        int_buffer.write_u64(self.client_salt, &mut buffer);

        proof {
            assert(buffer@ =~= spec_magic() + seq![1u8] + spec_le8(self.client_salt));
        }
        buffer
    }

    /// The challenge-response datagram: magic, the response octet, the
    /// two salts combined.
    pub fn send_challenge_response(&self, server_salt: u64) -> (r: Bytes)
        ensures
            r@ =~= spec_magic() + seq![3u8] + spec_le8(self.client_salt ^ server_salt),
    {
        let mut buffer = bytes_with_header(9);
        let mut int_buffer = IntBuffer::new_at(4);

        int_buffer.write_u8(3, &mut buffer);
        int_buffer.write_u64(self.client_salt ^ server_salt, &mut buffer);

        proof {
            assert(buffer@ =~= spec_magic() + seq![3u8] + spec_le8(
                self.client_salt ^ server_salt,
            ));
        }
        buffer
    }

    /// Parses a challenge reply (magic already stripped): the server
    /// must echo this attempt's client salt; the server's salt is
    /// captured for the response step.
    pub fn read_challenge(&mut self, buffer: &[u8]) -> (r: Result<u64, NetError>)
        ensures
            final(self).client_salt == old(self).client_salt,
            match r {
                Ok(salt) => {
                    &&& buffer@.len() >= 17
                    &&& spec_packet_type_of_u8(buffer@[0]) == Some(PacketType::Challenge)
                    &&& spec_u64_le(
                        buffer@[1],
                        buffer@[2],
                        buffer@[3],
                        buffer@[4],
                        buffer@[5],
                        buffer@[6],
                        buffer@[7],
                        buffer@[8],
                    ) == old(self).client_salt
                    &&& salt == spec_u64_le(
                        buffer@[9],
                        buffer@[10],
                        buffer@[11],
                        buffer@[12],
                        buffer@[13],
                        buffer@[14],
                        buffer@[15],
                        buffer@[16],
                    )
                    &&& final(self).server_salt == Some(salt)
                },
                Err(e) => {
                    &&& final(self).server_salt == old(self).server_salt
                    &&& (e == NetError::MalformedHeader <==> buffer@.len() < 17)
                    &&& (buffer@.len() >= 17 && spec_packet_type_of_u8(buffer@[0]) is None
                        ==> e == NetError::UnknownPacketType)
                    &&& (buffer@.len() >= 17 && (spec_packet_type_of_u8(buffer@[0]) matches Some(
                        t,
                    ) && t != PacketType::Challenge) ==> e == NetError::HandshakeRejected)
                    &&& (buffer@.len() >= 17 && spec_packet_type_of_u8(buffer@[0]) == Some(
                        PacketType::Challenge,
                    ) ==> e == NetError::HandshakeRejected && spec_u64_le(
                        buffer@[1],
                        buffer@[2],
                        buffer@[3],
                        buffer@[4],
                        buffer@[5],
                        buffer@[6],
                        buffer@[7],
                        buffer@[8],
                    ) != old(self).client_salt)
                },
            },
    {
        if buffer.len() < 17 {
            return Err(NetError::MalformedHeader);
        }

        let mut int_buffer = IntBuffer::new_at(0);
        let state = match PacketType::try_from(int_buffer.read_u8(buffer)) {
            Ok(t) => t,
            Err(e) => {
                return Err(e);
            },
        };
        if state != PacketType::Challenge {
            return Err(NetError::HandshakeRejected);
        }

        if self.client_salt != int_buffer.read_u64(buffer) {
            return Err(NetError::HandshakeRejected);
        }
        let server_salt = int_buffer.read_u64(buffer);
        self.server_salt = Some(server_salt);

        Ok(server_salt)
    }

    /// Parses the final verdict (magic already stripped): only a
    /// `ConnectionAccepted` carries the connection id.
    pub fn read_connection_status(&self, buffer: &[u8]) -> (r: Result<u32, NetError>)
        ensures
            match r {
                Ok(id) => {
                    &&& buffer@.len() >= 5
                    &&& spec_packet_type_of_u8(buffer@[0]) == Some(
                        PacketType::ConnectionAccepted,
                    )
                    &&& id == spec_u32_le(buffer@[1], buffer@[2], buffer@[3], buffer@[4])
                },
                Err(e) => {
                    &&& (e == NetError::MalformedHeader <==> buffer@.len() < 5)
                    &&& (buffer@.len() >= 5 && spec_packet_type_of_u8(buffer@[0]) is None ==> e
                        == NetError::UnknownPacketType)
                    &&& (buffer@.len() >= 5 && (spec_packet_type_of_u8(buffer@[0]) matches Some(
                        t,
                    ) && t != PacketType::ConnectionAccepted) ==> e
                        == NetError::HandshakeRejected)
                },
            },
            // success is owed: a well-formed acceptance always yields its id
            buffer@.len() >= 5 && spec_packet_type_of_u8(buffer@[0]) == Some(
                PacketType::ConnectionAccepted,
            ) ==> r == Ok::<u32, NetError>(
                spec_u32_le(buffer@[1], buffer@[2], buffer@[3], buffer@[4]),
            ),
    {
        if buffer.len() < 5 {
            return Err(NetError::MalformedHeader);
        }

        let mut int_buffer = IntBuffer::new_at(0);
        let state = match PacketType::try_from(int_buffer.read_u8(buffer)) {
            Ok(t) => t,
            Err(e) => {
                return Err(e);
            },
        };

        if state == PacketType::ConnectionAccepted {
            return Ok(int_buffer.read_u32(buffer));
        }

        Err(NetError::HandshakeRejected)
    }

    /// Seals a successful exchange: the session key is the two salts
    /// combined, exactly what the server derived on its side.
    pub fn finish(&self, connection_id: u32) -> (r: ConnectionResponse)
        requires
            self.server_salt is Some,
        ensures
            r.session_key == (self.client_salt ^ self.server_salt.unwrap()),
            r.connection_id == connection_id,
    {
        let server_salt = match self.server_salt {
            Some(s) => s,
            None => {
                proof {
                    assert(false);
                }
                0
            },
        };
        ConnectionResponse { session_key: self.client_salt ^ server_salt, connection_id }
    }
}

} // verus!
