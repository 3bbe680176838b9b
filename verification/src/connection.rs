//! One accepted connection: its identity and its channel.

use std::collections::VecDeque;

use vstd::prelude::*;

use crate::channel::{Channel, ChannelType};
use crate::error::NetError;
use crate::events::UdpSendEvent;
use crate::send_buffer::SendPayload;

verus! {

/// What the server remembers about a peer from the salt exchange on:
/// the salts bind the session key, and the key binds every later
/// datagram to this connection.
#[derive(Debug, Clone, Copy)]
pub struct Identity {
    pub connection_id: u32,
    pub addr: u64,
    pub client_salt: u64,
    pub server_salt: u64,
    pub session_key: u64,
    pub created_at: u64,
}

impl Identity {
    /// The session key is the two salts combined.
    pub open spec fn wf(&self) -> bool {
        self.session_key == (self.client_salt ^ self.server_salt)
    }

    pub fn new(addr: u64, client_salt: u64, server_salt: u64, connection_id: u32, now_ms: u64) -> (r:
        Self)
        ensures
            r.wf(),
            r.connection_id == connection_id,
            r.addr == addr,
            r.client_salt == client_salt,
            r.server_salt == server_salt,
            r.session_key == (client_salt ^ server_salt),
            r.created_at == now_ms,
    {
        Self {
            connection_id,
            addr,
            client_salt,
            server_salt,
            session_key: client_salt ^ server_salt,
            created_at: now_ms,
        }
    }
}

pub struct Connection {
    pub identity: Identity,
    pub channel: Channel,
}

impl Connection {
    pub open spec fn wf(&self) -> bool {
        &&& self.identity.wf()
        &&& self.channel.wf()
        &&& self.channel.session_key == self.identity.session_key
        &&& self.channel.addr == self.identity.addr
        &&& self.channel.mode == ChannelType::Server
    }

    pub fn new(identity: Identity) -> (r: Self)
        requires
            identity.wf(),
        ensures
            r.wf(),
            r.identity == identity,
            r.channel.local_seq == 0 && r.channel.unreliable_seq == 0 && r.channel.remote_seq
                == 0,
            r.channel.send_ack == false,
    {
        Self {
            channel: Channel::new(identity.addr, identity.session_key, ChannelType::Server),
            identity,
        }
    }

    /// One tick of the connection's channel: due retransmits and any
    /// owed empty ack go onto the socket queue.
    pub fn update(
        &mut self,
        marked_packets: &mut Vec<SendPayload>,
        send_queue: &mut VecDeque<UdpSendEvent>,
        now_ms: u64,
    ) -> (r: Result<(), NetError>)
        requires
            old(self).wf(),
            old(marked_packets)@.len() == 0,
        ensures
            final(self).wf(),
            r is Ok,
            final(marked_packets)@.len() == 0,
            final(self).identity == old(self).identity,
            crate::channel::spec_tick_rel(old(self).channel, final(self).channel, now_ms),
            crate::channel::spec_tick_queue_rel(
                old(self).channel,
                old(send_queue)@,
                final(send_queue)@,
                now_ms,
            ),
    {
        self.channel.update(marked_packets, send_queue, now_ms)
    }
}

} // verus!
