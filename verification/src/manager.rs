//! The server's connection table and handshake acceptance.
//!
//! A fixed-capacity slot vector with an address-token index, plus the
//! pending salt exchanges keyed by address. A `ConnectionRequest` from a
//! fresh address answers with a challenge; a `ChallengeResponse` proves
//! the sender can receive on its address by echoing the combined salts,
//! and only then takes a slot.

use std::collections::HashMap;
use std::collections::VecDeque;

use vstd::prelude::*;

use crate::channel::ChannelType;
use crate::connection::{Connection, Identity};
use crate::error::NetError;
use crate::events::UdpSendEvent;
use crate::header::{spec_le4, spec_le8};
use crate::int_buffer::IntBuffer;
use crate::send_buffer::SendPayload;
use crate::{bytes_with_header, spec_magic, spec_packet_type_of_u8, Bytes, PacketType};

verus! {

broadcast use vstd::std_specs::hash::group_hash_axioms;

#[derive(Debug, Clone, Copy, PartialEq, Eq, Structural)]
pub enum ConnectionStatus {
    Rejected,
    Connecting,
    Connected(u32),
}

/// The wire bytes of a challenge: magic, the challenge octet, the
/// echoed client salt, the fresh server salt.
pub open spec fn spec_challenge_packet(client_salt: u64, server_salt: u64) -> Seq<u8> {
    spec_magic() + seq![2u8] + spec_le8(client_salt) + spec_le8(server_salt)
}

/// The wire bytes of an acceptance: magic, the acceptance octet, the
/// connection id.
pub open spec fn spec_accept_packet(connection_id: u32) -> Seq<u8> {
    spec_magic() + seq![4u8] + spec_le4(connection_id)
}

pub struct ConnectionManager {
    pub capacity: usize,
    pub active_clients: usize,
    pub connections: Vec<Option<Connection>>,
    pub addr_map: HashMap<u64, usize>,
    pub connect_requests: HashMap<u64, Identity>,
    /// Monotonic; starts at 1 and is never reused.
    pub next_connection_id: u32,
}

impl ConnectionManager {
    pub open spec fn wf(&self) -> bool {
        &&& self.connections@.len() == self.capacity
        &&& self.active_clients <= self.capacity
        &&& self.next_connection_id >= 1
        &&& (forall|j: int|
            0 <= j < self.capacity && self.connections@[j] is Some ==> (
            #[trigger] self.connections@[j]).unwrap().wf())
        &&& (forall|a: u64|
            #[trigger] self.addr_map@.contains_key(a) ==> self.addr_map@[a]
                < self.capacity)
        &&& (forall|a: u64|
            #[trigger] self.connect_requests@.contains_key(a)
                ==> self.connect_requests@[a].wf() && self.connect_requests@[a].addr == a)
    }

    /// Whether some slot of the table is empty.
    pub open spec fn spec_has_free_slot(&self) -> bool {
        exists|j: int| 0 <= j < self.capacity && (#[trigger] self.connections@[j]) is None
    }

    pub fn new(max_clients: usize) -> (r: Self)
        ensures
            r.wf(),
            r.capacity == max_clients,
            r.active_clients == 0,
            r.next_connection_id == 1,
            r.addr_map@ =~= Map::<u64, usize>::empty(),
            r.connect_requests@ =~= Map::<u64, Identity>::empty(),
            forall|j: int| 0 <= j < max_clients ==> r.connections@[j] is None,
    {
        let mut connections: Vec<Option<Connection>> = Vec::new();
        let mut i: usize = 0;
        while i < max_clients
            invariant
                i <= max_clients,
                connections@.len() == i,
                forall|j: int| 0 <= j < i ==> connections@[j] is None,
            decreases max_clients - i,
        {
            connections.push(None);
            i += 1;
        }
        ConnectionManager {
            capacity: max_clients,
            active_clients: 0,
            addr_map: HashMap::new(),
            connections,
            connect_requests: HashMap::new(),
            next_connection_id: 1,
        }
    }

    fn has_free_slots(&self) -> (r: bool)
        ensures
            r == (self.active_clients < self.capacity),
    {
        self.active_clients < self.capacity
    }

    fn get_free_slot_index(&self) -> (r: Option<usize>)
        requires
            self.wf(),
        ensures
            match r {
                Some(i) => i < self.capacity && self.connections@[i as int] is None,
                None => forall|j: int|
                    0 <= j < self.capacity ==> self.connections@[j] is Some,
            },
    {
        let mut i: usize = 0;
        while i < self.capacity
            invariant
                self.wf(),
                i <= self.capacity,
                forall|j: int| 0 <= j < i ==> self.connections@[j] is Some,
            decreases self.capacity - i,
        {
            match &self.connections[i] {
                None => {
                    return Some(i);
                },
                Some(_) => {},
            }
            i += 1;
        }
        None
    }

    /// The live connection for an address token, if one is installed.
    pub fn get_client_mut(&mut self, addr: u64) -> (r: Option<&mut Connection>)
        requires
            old(self).wf(),
        ensures
            match r {
                Some(c) => {
                    &&& old(self).addr_map@.contains_key(addr)
                    &&& ({
                        let idx = old(self).addr_map@[addr] as int;
                        &&& old(self).connections@[idx] == Some(*c)
                        &&& final(self).connections@ =~= old(self).connections@.update(
                            idx,
                            Some(*final(c)),
                        )
                    })
                    &&& final(self).addr_map == old(self).addr_map
                    &&& final(self).connect_requests == old(self).connect_requests
                    &&& final(self).capacity == old(self).capacity
                    &&& final(self).active_clients == old(self).active_clients
                    &&& final(self).next_connection_id == old(self).next_connection_id
                },
                None => {
                    &&& (!old(self).addr_map@.contains_key(addr) || old(self).connections@[old(
                        self,
                    ).addr_map@[addr] as int] is None)
                    &&& final(self).connections@ =~= old(self).connections@
                    &&& final(self).addr_map == old(self).addr_map
                    &&& final(self).connect_requests == old(self).connect_requests
                    &&& final(self).capacity == old(self).capacity
                    &&& final(self).active_clients == old(self).active_clients
                    &&& final(self).next_connection_id == old(self).next_connection_id
                },
            },
    {
        let index = match self.addr_map.get(&addr) {
            Some(i) => *i,
            None => {
                return None;
            },
        };
        match vstd::std_specs::vec::vec_index_mut(&mut self.connections, index) {
            Some(client) => Some(client),
            None => None,
        }
    }

    /// Handles a handshake datagram from an address without a live
    /// connection.
    ///
    /// A full table rejects everything. A first `ConnectionRequest`
    /// records the salts and answers with a challenge; a
    /// `ChallengeResponse` takes a slot only when it echoes exactly
    /// `client_salt XOR server_salt` recorded for that address — an
    /// echo learned elsewhere, or sent from another address, stays
    /// rejected.
    pub fn process_connect(
        &mut self,
        addr: u64,
        buffer: &[u8],
        now_ms: u64,
        send_queue: &mut VecDeque<UdpSendEvent>,
    ) -> (r: Result<ConnectionStatus, NetError>)
        requires
            old(self).wf(),
        ensures
            final(self).wf(),
            final(self).capacity == old(self).capacity,
            final(self).next_connection_id >= old(self).next_connection_id,
            match r {
                Ok(status) => match status {
                    ConnectionStatus::Connected(id) => {
                        &&& old(self).connect_requests@.contains_key(addr)
                        &&& buffer@.len() >= 9
                        &&& spec_packet_type_of_u8(buffer@[0]) == Some(
                            PacketType::ChallengeResponse,
                        )
                        &&& crate::int_buffer::spec_u64_le(
                            buffer@[1],
                            buffer@[2],
                            buffer@[3],
                            buffer@[4],
                            buffer@[5],
                            buffer@[6],
                            buffer@[7],
                            buffer@[8],
                        ) == old(self).connect_requests@[addr].session_key
                        &&& id == old(self).connect_requests@[addr].connection_id
                        &&& !final(self).connect_requests@.contains_key(addr)
                        &&& final(self).addr_map@.contains_key(addr)
                        &&& ({
                            let idx = final(self).addr_map@[addr] as int;
                            &&& final(self).connections@[idx] matches Some(c)
                            &&& c.identity == old(self).connect_requests@[addr]
                            &&& c.channel.session_key == old(
                                self,
                            ).connect_requests@[addr].session_key
                            &&& c.channel.mode == ChannelType::Server
                        })
                        &&& final(send_queue)@.len() == old(send_queue)@.len() + 1
                        &&& final(send_queue)@.subrange(0, old(send_queue)@.len() as int) =~= old(
                            send_queue,
                        )@
                        &&& (final(send_queue)@.last() matches UdpSendEvent::Server(b, a) && b@
                            =~= spec_accept_packet(id) && a == addr)
                    },
                    ConnectionStatus::Connecting => {
                        &&& old(self).active_clients < old(self).capacity
                        &&& !old(self).connect_requests@.contains_key(addr)
                        &&& buffer@.len() >= 9
                        &&& spec_packet_type_of_u8(buffer@[0]) == Some(
                            PacketType::ConnectionRequest,
                        )
                        &&& final(self).connect_requests@.contains_key(addr)
                        &&& ({
                            let identity = final(self).connect_requests@[addr];
                            &&& identity.addr == addr
                            &&& identity.client_salt == crate::int_buffer::spec_u64_le(
                                buffer@[1],
                                buffer@[2],
                                buffer@[3],
                                buffer@[4],
                                buffer@[5],
                                buffer@[6],
                                buffer@[7],
                                buffer@[8],
                            )
                            &&& identity.wf()
                            &&& identity.connection_id == old(self).next_connection_id
                            &&& identity.created_at == now_ms
                            &&& (final(send_queue)@.last() matches UdpSendEvent::Server(b, a)
                                && b@ =~= spec_challenge_packet(
                                identity.client_salt,
                                identity.server_salt,
                            ) && a == addr)
                        })
                        &&& final(self).connections@ =~= old(self).connections@
                        &&& final(self).addr_map == old(self).addr_map
                        &&& final(send_queue)@.len() == old(send_queue)@.len() + 1
                        &&& final(send_queue)@.subrange(0, old(send_queue)@.len() as int) =~= old(
                            send_queue,
                        )@
                    },
                    ConnectionStatus::Rejected => {
                        &&& final(self).connections@ =~= old(self).connections@
                        &&& final(self).addr_map == old(self).addr_map
                        &&& final(self).connect_requests == old(self).connect_requests
                        &&& final(send_queue)@ =~= old(send_queue)@
                    },
                },
                Err(e) => {
                    &&& (e == NetError::MalformedHeader || e == NetError::UnknownPacketType)
                    &&& *final(self) == *old(self)
                    &&& final(send_queue)@ =~= old(send_queue)@
                },
            },
            // each outcome is owed exactly on its inputs: a server that
            // never answers does not meet this contract
            r == Err::<ConnectionStatus, NetError>(NetError::MalformedHeader) <==> (old(
                self,
            ).active_clients < old(self).capacity && buffer@.len() < 9),
            r == Err::<ConnectionStatus, NetError>(NetError::UnknownPacketType) <==> (old(
                self,
            ).active_clients < old(self).capacity && buffer@.len() >= 9
                && spec_packet_type_of_u8(buffer@[0]) is None),
            r == Ok::<ConnectionStatus, NetError>(ConnectionStatus::Connecting) <==> (old(
                self,
            ).active_clients < old(self).capacity && buffer@.len() >= 9
                && spec_packet_type_of_u8(buffer@[0]) == Some(PacketType::ConnectionRequest)
                && !old(self).connect_requests@.contains_key(addr)),
            (r matches Ok(status) && status matches ConnectionStatus::Connected(_)) <==> (old(
                self,
            ).active_clients < old(self).capacity && buffer@.len() >= 9
                && spec_packet_type_of_u8(buffer@[0]) == Some(PacketType::ChallengeResponse)
                && old(self).connect_requests@.contains_key(addr) && crate::int_buffer::spec_u64_le(
                buffer@[1],
                buffer@[2],
                buffer@[3],
                buffer@[4],
                buffer@[5],
                buffer@[6],
                buffer@[7],
                buffer@[8],
            ) == old(self).connect_requests@[addr].session_key && old(self).spec_has_free_slot()),
    {
        if !self.has_free_slots() {
            return Ok(ConnectionStatus::Rejected);
        }

        if buffer.len() < 9 {
            return Err(NetError::MalformedHeader);
        }

        let mut int_buffer = IntBuffer::new_at(0);
        let state = match PacketType::try_from(int_buffer.read_u8(buffer)) {
            Ok(t) => t,
            Err(e) => {
                return Err(e);
            },
        };

        // check whether a connect is already in progress
        let pending = match self.connect_requests.get(&addr) {
            Some(identity) => Some(*identity),
            None => None,
        };

        match pending {
            Some(identity) => {
                if state == PacketType::ChallengeResponse && identity.session_key
                    == int_buffer.read_u64(buffer) {
                    let client_id = identity.connection_id;
                    if let Some(accept) = self.finish_challenge(addr) {
                        send_queue.push_back(UdpSendEvent::Server(accept, addr));
                        return Ok(ConnectionStatus::Connected(client_id));
                    }
                }
                Ok(ConnectionStatus::Rejected)
            },
            None => {
                if state == PacketType::ConnectionRequest {
                    let client_salt = int_buffer.read_u64(buffer);
                    let server_salt = crate::salt::random_u64();

                    let connection_id = self.next_connection_id;
                    if self.next_connection_id < u32::MAX {
                        self.next_connection_id = self.next_connection_id + 1;
                    }

                    let identity = Identity::new(
                        addr,
                        client_salt,
                        server_salt,
                        connection_id,
                        now_ms,
                    );
                    self.connect_requests.insert(addr, identity);

                    // generate the challenge packet
                    let mut challenge = bytes_with_header(17);
                    let mut out = IntBuffer::new_at(4);
                    out.write_u8(2, &mut challenge);
                    out.write_u64(client_salt, &mut challenge);
                    out.write_u64(server_salt, &mut challenge);
                    proof {
                        assert(challenge@ =~= spec_challenge_packet(client_salt, server_salt));
                    }

                    send_queue.push_back(UdpSendEvent::Server(challenge, addr));
                    return Ok(ConnectionStatus::Connecting);
                }
                Ok(ConnectionStatus::Rejected)
            },
        }
    }

    /// Installs the connection of a successfully answered challenge and
    /// produces the acceptance packet; a full slot table yields nothing.
    fn finish_challenge(&mut self, addr: u64) -> (r: Option<Bytes>)
        requires
            old(self).wf(),
            old(self).connect_requests@.contains_key(addr),
        ensures
            final(self).wf(),
            final(self).capacity == old(self).capacity,
            final(self).next_connection_id == old(self).next_connection_id,
            match r {
                Some(accept) => {
                    &&& old(self).spec_has_free_slot()
                    &&& accept@ =~= spec_accept_packet(
                        old(self).connect_requests@[addr].connection_id,
                    )
                    &&& !final(self).connect_requests@.contains_key(addr)
                    &&& final(self).addr_map@.contains_key(addr)
                    &&& ({
                        let idx = final(self).addr_map@[addr] as int;
                        &&& final(self).connections@[idx] matches Some(c)
                        &&& c.identity == old(self).connect_requests@[addr]
                        &&& c.channel.session_key == old(
                            self,
                        ).connect_requests@[addr].session_key
                        &&& c.channel.mode == ChannelType::Server
                    })
                },
                None => {
                    &&& !old(self).spec_has_free_slot()
                    &&& final(self).connections@ =~= old(self).connections@
                    &&& final(self).addr_map == old(self).addr_map
                    &&& final(self).connect_requests == old(self).connect_requests
                },
            },
    {
        let connection_index = match self.get_free_slot_index() {
            Some(i) => i,
            None => {
                return None;
            },
        };

        // take the identity out of the pending requests
        let identity = match self.connect_requests.remove(&addr) {
            Some(identity) => identity,
            None => {
                proof {
                    assert(false);
                }
                return None;
            },
        };

        let mut accept = bytes_with_header(5);
        let mut out = IntBuffer::new_at(4);
        out.write_u8(4, &mut accept);
        out.write_u32(identity.connection_id, &mut accept);
        proof {
            assert(accept@ =~= spec_accept_packet(identity.connection_id));
        }

        // install the client
        self.insert_connection(connection_index, identity);

        Some(accept)
    }

    fn insert_connection(&mut self, index: usize, identity: Identity)
        requires
            old(self).wf(),
            index < old(self).capacity,
            old(self).connections@[index as int] is None,
            identity.wf(),
        ensures
            final(self).wf(),
            final(self).capacity == old(self).capacity,
            final(self).next_connection_id == old(self).next_connection_id,
            final(self).connect_requests == old(self).connect_requests,
            final(self).addr_map@ =~= old(self).addr_map@.insert(identity.addr, index),
            final(self).connections@.len() == old(self).connections@.len(),
            ({
                &&& final(self).connections@[index as int] matches Some(c)
                &&& c.identity == identity
                &&& c.channel.session_key == identity.session_key
                &&& c.channel.mode == ChannelType::Server
            }),
            forall|j: int|
                0 <= j < old(self).capacity && j != index ==> final(self).connections@[j] == old(
                    self,
                ).connections@[j],
    {
        let connection = Connection::new(identity);
        self.connections[index] = Some(connection);
        self.addr_map.insert(identity.addr, index);
        if self.active_clients < self.capacity {
            self.active_clients = self.active_clients + 1;
        }
    }

    /// Tears down the connection of an address token, handing back its
    /// id so the caller can surface the loss.
    pub fn disconnect_connection(&mut self, addr: u64) -> (r: Option<u32>)
        requires
            old(self).wf(),
        ensures
            final(self).wf(),
            final(self).capacity == old(self).capacity,
            final(self).connect_requests == old(self).connect_requests,
            match r {
                Some(id) => {
                    &&& old(self).addr_map@.contains_key(addr)
                    &&& old(self).connections@[old(self).addr_map@[addr] as int] matches Some(c)
                        && c.identity.connection_id == id
                    &&& final(self).connections@ =~= old(self).connections@.update(
                        old(self).addr_map@[addr] as int,
                        None,
                    )
                    &&& final(self).addr_map@ =~= old(self).addr_map@.remove(addr)
                },
                None => {
                    &&& (old(self).addr_map@.contains_key(addr) ==> old(self).connections@[old(
                        self,
                    ).addr_map@[addr] as int] is None)
                    &&& final(self).addr_map@ =~= old(self).addr_map@.remove(addr)
                    &&& (old(self).addr_map@.contains_key(addr) ==> final(self).connections@
                        =~= old(self).connections@.update(old(self).addr_map@[addr] as int, None))
                    &&& (!old(self).addr_map@.contains_key(addr) ==> final(self).connections@
                        =~= old(self).connections@)
                },
            },
    {
        let index = match self.addr_map.get(&addr) {
            Some(i) => *i,
            None => {
                proof {
                    assert(old(self).addr_map@.remove(addr) =~= old(self).addr_map@);
                }
                return None;
            },
        };

        let mut client_id: Option<u32> = None;
        match &self.connections[index] {
            Some(connection) => {
                if self.active_clients > 0 {
                    self.active_clients = self.active_clients - 1;
                }
                client_id = Some(connection.identity.connection_id);
            },
            None => {},
        }
        self.addr_map.remove(&addr);
        self.connections[index] = None;

        client_id
    }

    /// One tick: every live connection retransmits what is due and
    /// flushes any owed empty ack. Each live channel ends the tick in
    /// the state `spec_tick_rel` describes, and the queue only ever
    /// grows at the front.
    pub fn update(
        &mut self,
        marked_packets: &mut Vec<SendPayload>,
        send_queue: &mut VecDeque<UdpSendEvent>,
        now_ms: u64,
    )
        requires
            old(self).wf(),
            old(marked_packets)@.len() == 0,
        ensures
            final(self).wf(),
            final(marked_packets)@.len() == 0,
            final(self).capacity == old(self).capacity,
            final(self).addr_map == old(self).addr_map,
            final(self).connect_requests == old(self).connect_requests,
            final(self).connections@.len() == old(self).connections@.len(),
            forall|j: int|
                0 <= j < old(self).capacity ==> ((#[trigger] final(self).connections@[j]) is Some
                    == old(self).connections@[j] is Some) && (old(self).connections@[j] is Some
                    ==> final(self).connections@[j].unwrap().identity == old(
                    self,
                ).connections@[j].unwrap().identity && crate::channel::spec_tick_rel(
                    old(self).connections@[j].unwrap().channel,
                    final(self).connections@[j].unwrap().channel,
                    now_ms,
                )),
            final(send_queue)@.len() >= old(send_queue)@.len(),
            final(send_queue)@.subrange(
                final(send_queue)@.len() - old(send_queue)@.len(),
                final(send_queue)@.len() as int,
            ) =~= old(send_queue)@,
    {
        let capacity = self.capacity;
        let mut i: usize = 0;
        while i < capacity
            invariant
                self.wf(),
                capacity == self.capacity,
                i <= capacity,
                marked_packets@.len() == 0,
                self.capacity == old(self).capacity,
                self.addr_map == old(self).addr_map,
                self.connect_requests == old(self).connect_requests,
                self.connections@.len() == old(self).connections@.len(),
                forall|j: int|
                    i as int <= j < old(self).capacity ==> #[trigger] self.connections@[j] == old(
                        self,
                    ).connections@[j],
                forall|j: int|
                    0 <= j < i as int ==> ((#[trigger] self.connections@[j]) is Some == old(
                        self,
                    ).connections@[j] is Some) && (old(self).connections@[j] is Some
                        ==> self.connections@[j].unwrap().identity == old(
                        self,
                    ).connections@[j].unwrap().identity && crate::channel::spec_tick_rel(
                        old(self).connections@[j].unwrap().channel,
                        self.connections@[j].unwrap().channel,
                        now_ms,
                    )),
                send_queue@.len() >= old(send_queue)@.len(),
                send_queue@.subrange(
                    send_queue@.len() - old(send_queue)@.len(),
                    send_queue@.len() as int,
                ) =~= old(send_queue)@,
            decreases capacity - i,
        {
            let ghost qprev = send_queue@;
            match vstd::std_specs::vec::vec_index_mut(&mut self.connections, i) {
                Some(connection) => {
                    match connection.update(marked_packets, send_queue, now_ms) {
                        Ok(_) => {},
                        Err(_) => {},
                    }
                    proof {
                        lemma_queue_suffix_trans(send_queue@, qprev, old(send_queue)@);
                    }
                },
                None => {},
            }
            i += 1;
        }
    }
}

/// A suffix of a suffix is a suffix.
proof fn lemma_queue_suffix_trans(a: Seq<UdpSendEvent>, b: Seq<UdpSendEvent>, c: Seq<UdpSendEvent>)
    requires
        b.len() <= a.len(),
        a.subrange(a.len() - b.len(), a.len() as int) =~= b,
        c.len() <= b.len(),
        b.subrange(b.len() - c.len(), b.len() as int) =~= c,
    ensures
        a.subrange(a.len() - c.len(), a.len() as int) =~= c,
{
    assert forall|t: int| 0 <= t < c.len() implies a.subrange(
        a.len() - c.len(),
        a.len() as int,
    )[t] == c[t] by {
        assert(c[t] == b.subrange(b.len() - c.len(), b.len() as int)[t]);
        assert(b[b.len() - c.len() + t] == a.subrange(a.len() - b.len(), a.len() as int)[b.len()
            - c.len() + t]);
    }
}

} // verus!
