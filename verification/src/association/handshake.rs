//! The set-up of an association.

use crate::association::Association;
use crate::error::{Error, Result};
use crate::packet::Packet;
use vstd::prelude::*;

verus! {

/// How far an association has come.
#[derive(Debug, Clone, Copy, PartialEq, Eq, Structural)]
pub enum AssociationState {
    Closed,
    CookieWait,
    CookieEchoed,
    Established,
    ShutdownAckSent,
    ShutdownPending,
    ShutdownReceived,
    ShutdownSent,
}

impl AssociationState {
    /// An INIT is expected: none was answered yet, or both ends have sent one.
    pub open spec fn expects_init(self) -> bool {
        self is Closed || self is CookieWait || self is CookieEchoed
    }
}

/// The number of the FORWARD-TSN chunk type.
pub const CT_FORWARD_TSN: u8 = 192;

/// The number of the RE-CONFIG chunk type.
pub const CT_RECONFIG: u8 = 130;

/// The chunk with which a peer asks for an association.
#[derive(Debug, Default)]
pub struct ChunkInit {
    pub initiate_tag: u32,
    pub advertised_receiver_window_credit: u32,
    pub num_outbound_streams: u16,
    pub num_inbound_streams: u16,
    pub initial_tsn: u32,
    /// The chunk types that the peer supports beyond the basic ones.
    pub supported_extensions: Vec<u8>,
}

impl ChunkInit {
    /// Announces the extensions that this implementation supports.
    pub fn set_supported_extensions(&mut self)
        ensures
            final(self).supported_extensions@ == seq![CT_RECONFIG, CT_FORWARD_TSN],
            final(self).initiate_tag == old(self).initiate_tag,
            final(self).advertised_receiver_window_credit == old(self).advertised_receiver_window_credit,
            final(self).num_outbound_streams == old(self).num_outbound_streams,
            final(self).num_inbound_streams == old(self).num_inbound_streams,
            final(self).initial_tsn == old(self).initial_tsn,
    {
        self.supported_extensions = vec![CT_RECONFIG, CT_FORWARD_TSN];
        assert(self.supported_extensions@ =~= seq![CT_RECONFIG, CT_FORWARD_TSN]);
    }

    /// Whether the peer can skip TSNs.
    pub fn supports_forward_tsn(&self) -> (r: bool)
        ensures
            r == self.supported_extensions@.contains(CT_FORWARD_TSN),
    {
        let mut i: usize = 0;
        while i < self.supported_extensions.len()
            invariant
                i <= self.supported_extensions@.len(),
                forall|j: int| 0 <= j < i ==> self.supported_extensions@[j] != CT_FORWARD_TSN,
            decreases self.supported_extensions@.len() - i,
        {
            if self.supported_extensions[i] == CT_FORWARD_TSN {
                return true;
            }
            i += 1;
        }
        false
    }
}

/// The smaller of two numbers.
pub open spec fn min16(a: u16, b: u16) -> u16 {
    if a <= b {
        a
    } else {
        b
    }
}

fn smaller(a: u16, b: u16) -> (r: u16)
    ensures
        r == min16(a, b),
{
    if a <= b {
        a
    } else {
        b
    }
}

impl Association {
    /// Moves the association to another state.
    pub fn set_state(&mut self, state: AssociationState)
        ensures
            *final(self) == (Association { state, ..*old(self) }),
    {
        self.state = state;
    }

    /// The state of the association.
    pub fn state(&self) -> (r: AssociationState)
        ensures
            r == self.state,
    {
        self.state
    }

    /// Whether the association is still being set up.
    pub fn is_handshaking(&self) -> (r: bool)
        ensures
            r == !self.handshake_completed,
    {
        !self.handshake_completed
    }

    /// How many streams both ends can use: the smaller of the inbound and the
    /// outbound number. Before the set-up is complete nothing was agreed on.
    pub fn negotiated_max_streams(&self) -> (r: Option<u16>)
        ensures
            r == if self.handshake_completed {
                Some(min16(self.my_max_num_inbound_streams, self.my_max_num_outbound_streams))
            } else {
                None
            },
    {
        if self.is_handshaking() {
            None
        } else {
            Some(smaller(self.my_max_num_inbound_streams, self.my_max_num_outbound_streams))
        }
    }

    /// Takes over what the peer offers in its INIT. The peer's numbers of
    /// streams narrow this end's own; its first TSN is the one after the last
    /// that counts as received. Fails, and changes nothing, in a state in which
    /// no INIT is expected.
    pub fn handle_init(&mut self, p: &Packet, i: &ChunkInit) -> (r: Result<()>)
        ensures
            old(self).wf() && (r is Ok ==> old(self).payload_queue@.sorted.len() == 0)
                ==> final(self).wf(),
            match r {
                Ok(()) => {
                    &&& old(self).state.expects_init()
                    &&& *final(self) == (Association {
                        my_max_num_inbound_streams: min16(
                            i.num_inbound_streams,
                            old(self).my_max_num_inbound_streams,
                        ),
                        my_max_num_outbound_streams: min16(
                            i.num_outbound_streams,
                            old(self).my_max_num_outbound_streams,
                        ),
                        peer_verification_tag: i.initiate_tag,
                        source_port: p.common_header.destination_port,
                        destination_port: p.common_header.source_port,
                        peer_last_tsn: i.initial_tsn.wrapping_sub(1),
                        use_forward_tsn: old(self).use_forward_tsn
                            || i.supported_extensions@.contains(CT_FORWARD_TSN),
                        ..*old(self)
                    })
                },
                Err(e) => {
                    &&& !old(self).state.expects_init()
                    &&& e == Error::ErrHandleInitState
                    &&& *final(self) == *old(self)
                },
            },
    {
        match self.state {
            AssociationState::Closed
            | AssociationState::CookieWait
            | AssociationState::CookieEchoed => {},
            _ => {
                return Err(Error::ErrHandleInitState);
            },
        }
        self.my_max_num_inbound_streams = smaller(
            i.num_inbound_streams,
            self.my_max_num_inbound_streams,
        );
        self.my_max_num_outbound_streams = smaller(
            i.num_outbound_streams,
            self.my_max_num_outbound_streams,
        );
        self.peer_verification_tag = i.initiate_tag;
        self.source_port = p.common_header.destination_port;
        self.destination_port = p.common_header.source_port;
        self.peer_last_tsn = i.initial_tsn.wrapping_sub(1);
        if i.supports_forward_tsn() {
            self.use_forward_tsn = true;
        }
        Ok(())
    }
}

} // verus!
