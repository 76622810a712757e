//! The host: a fixed set of peer slots and the phases of a service tick.
//!
//! The host does no I/O. A tick hands out a waiting event, asks the host for
//! the datagrams to send, hands it the datagrams that have arrived, and lets
//! it look at the timeouts; what surrounds the host moves the bytes.

use vstd::prelude::*;
use std::collections::VecDeque;
use crate::checksum::{seal, spec_sealed, spec_unsealed, unseal};
use crate::consts::{
    HOST_DEFAULT_MTU, PROTOCOL_MAXIMUM_CHANNEL_COUNT, PROTOCOL_MAXIMUM_PEER_ID,
    PROTOCOL_MINIMUM_CHANNEL_COUNT,
};
use crate::datagram::{parse_datagram, Datagram, DatagramView};
use crate::packet::{Address, Packet, PacketView};
use crate::peer::control::{HostSettings, NotConnected};
use crate::peer::send::PeerSendError;
use crate::peer::{
    lemma_outbound_views_remove, outbound_views, Event, EventView, Outbound, OutboundView, Peer,
    PeerID, PeerState, PeerView,
};
use crate::wire::{CommandBody, CommandHeader, Handshake};

verus! {

/// A host cannot be made with the given parameters.
#[derive(Debug, Clone, Copy, PartialEq, Eq)]
pub struct InvalidParameters;

/// Every peer slot of the host is in use, or one of them is in a session
/// with the address already.
#[derive(Debug, Clone, Copy, PartialEq, Eq)]
pub struct NoPeerAvailable;

/// Why the host did nothing for a peer.
#[derive(Debug, Clone, Copy, PartialEq, Eq)]
pub enum HostError {
    /// The host has no such slot.
    NoSuchPeer,
    /// The peer refused.
    Send(PeerSendError),
}

/// A host: its peers and what they share.
#[derive(Debug)]
pub struct Host {
    peers: Vec<Peer>,
    settings: HostSettings,
    checksum: bool,
    seed: u32,
    dropped: u32,
    bandwidth_epoch: u32,
    incoming_data_total: u32,
    outgoing_data_total: u32,
    held: VecDeque<Outbound>,
}

/// The mathematical value of a [`Host`].
pub struct HostView {
    pub peers: Seq<PeerView>,
    pub settings: HostSettings,
    /// Whether the datagrams of the host carry a checksum.
    pub checksum: bool,
    /// The state of the generator of session nonces.
    pub seed: u32,
    /// Number of datagrams that were dropped as malformed or misdirected.
    pub dropped: u32,
    /// Time at which the current bandwidth epoch began.
    pub bandwidth_epoch: u32,
    /// Bytes that the connected peers received in the last bandwidth epoch.
    pub incoming_data_total: u32,
    /// Bytes that the connected peers sent in the last bandwidth epoch.
    pub outgoing_data_total: u32,
    /// Datagrams that the endpoint could not take; they leave first when
    /// the host sends again.
    pub held: Seq<OutboundView>,
}

/// The views of a sequence of peers.
pub open spec fn peer_views(s: Seq<Peer>) -> Seq<PeerView> {
    s.map_values(|p: Peer| p@)
}

/// The state of the generator after it has given out one more number.
pub open spec fn spec_next_seed(seed: u32) -> u32 {
    vstd::wrapping::u32_specs::wrapping_add(seed, 0x6D2B_79F5)
}

/// The number that the generator gives out in the given state.
pub open spec fn spec_random(seed: u32) -> u32 {
    let a = seed ^ (seed >> 15);
    let b = vstd::wrapping::u32_specs::wrapping_mul(a, seed | 1u32);
    let c = b ^ (b >> 7);
    let d = vstd::wrapping::u32_specs::wrapping_mul(c, b | 61u32);
    let e = b ^ vstd::wrapping::u32_specs::wrapping_add(b, d);
    e ^ (e >> 14)
}

/// The first slot from `i` on whose peer is disconnected; the number of
/// slots where there is none.
pub open spec fn spec_free_slot(peers: Seq<PeerView>, i: int) -> int
    decreases peers.len() - i,
{
    if i < 0 || i >= peers.len() {
        peers.len() as int
    } else if peers[i].state == PeerState::Disconnected {
        i
    } else {
        spec_free_slot(peers, i + 1)
    }
}

/// Whether one of the peers from slot `i` on is live and at the given
/// address.
pub open spec fn spec_in_session(peers: Seq<PeerView>, address: Address, i: int) -> bool
    decreases peers.len() - i,
{
    if i < 0 || i >= peers.len() {
        false
    } else {
        (peers[i].live() && peers[i].address == Some(address)) || spec_in_session(
            peers,
            address,
            i + 1,
        )
    }
}

impl View for Host {
    type V = HostView;

    closed spec fn view(&self) -> HostView {
        HostView {
            peers: peer_views(self.peers@),
            settings: self.settings,
            checksum: self.checksum,
            seed: self.seed,
            dropped: self.dropped,
            bandwidth_epoch: self.bandwidth_epoch,
            incoming_data_total: self.incoming_data_total,
            outgoing_data_total: self.outgoing_data_total,
            held: outbound_views(self.held@),
        }
    }
}

impl HostView {
    /// What holds of every host: it has between one and 4095 slots, each
    /// peer knows its slot, and no two live peers are at the same address.
    pub open spec fn inv(self) -> bool {
        &&& 1 <= self.peers.len() <= PROTOCOL_MAXIMUM_PEER_ID
        &&& forall|i: int| 0 <= i < self.peers.len() ==> (#[trigger] self.peers[i]).id == PeerID(
            i as usize,
        )
        &&& forall|i: int, j: int|
            0 <= i < j < self.peers.len() && (#[trigger] self.peers[i]).live() && (
            #[trigger] self.peers[j]).live() ==> self.peers[i].address != self.peers[j].address
    }

    /// The host after the given peer took the place of the one in its slot.
    pub open spec fn with_peer(self, i: int, peer: PeerView) -> HostView {
        HostView { peers: self.peers.update(i, peer), ..self }
    }

    /// The host after it has counted one more dropped datagram.
    pub open spec fn with_drop(self) -> HostView {
        HostView { dropped: ((self.dropped + 1) % 0x1_0000_0000) as u32, ..self }
    }
}

impl Host {
    /// The invariant of a host: what holds of every host's value, and the
    /// invariants of its peers.
    pub closed spec fn wf(&self) -> bool {
        &&& self@.inv()
        &&& forall|i: int| 0 <= i < self.peers@.len() ==> (#[trigger] self.peers@[i]).wf()
    }

    /// What the invariant says of the view.
    pub proof fn lemma_wf(&self)
        requires
            self.wf(),
        ensures
            self@.inv(),
    {
    }

    /// A host with `peer_count` slots that allows each session
    /// `channel_limit` channels and has the given bandwidths in bytes per
    /// second, 0 for no limit. `seed` starts the generator of session
    /// nonces. The datagrams of the host carry no checksum.
    ///
    /// # Errors
    ///
    /// [`InvalidParameters`] unless there are between 1 and 4095 slots and
    /// between 1 and 255 channels.
    pub fn new(
        peer_count: usize,
        channel_limit: usize,
        incoming_bandwidth: u32,
        outgoing_bandwidth: u32,
        seed: u32,
    ) -> (r: Result<Host, InvalidParameters>)
        ensures
            r is Ok <==> (1 <= peer_count <= PROTOCOL_MAXIMUM_PEER_ID
                && PROTOCOL_MINIMUM_CHANNEL_COUNT <= channel_limit
                <= PROTOCOL_MAXIMUM_CHANNEL_COUNT),
            r matches Ok(host) ==> {
                &&& host.wf()
                &&& host@ == (HostView {
                    peers: Seq::new(peer_count as nat, |i: int| PeerView::spec_new(PeerID(i as usize))),
                    settings: HostSettings {
                        mtu: HOST_DEFAULT_MTU,
                        incoming_bandwidth,
                        outgoing_bandwidth,
                        channel_limit,
                    },
                    checksum: false,
                    seed,
                    dropped: 0,
                    bandwidth_epoch: 0,
                    incoming_data_total: 0,
                    outgoing_data_total: 0,
                    held: Seq::empty(),
                })
            },
    {
        if peer_count < 1 || peer_count > PROTOCOL_MAXIMUM_PEER_ID as usize || channel_limit
            < PROTOCOL_MINIMUM_CHANNEL_COUNT || channel_limit > PROTOCOL_MAXIMUM_CHANNEL_COUNT {
            return Err(InvalidParameters);
        }
        let mut peers: Vec<Peer> = Vec::new();
        let mut i: usize = 0;
        assert(peer_views(peers@) =~= Seq::new(0nat, |i: int| PeerView::spec_new(PeerID(i as usize))));
        while i < peer_count
            invariant
                i <= peer_count,
                peers@.len() == i,
                peer_views(peers@) == Seq::new(
                    i as nat,
                    |k: int| PeerView::spec_new(PeerID(k as usize)),
                ),
                forall|k: int| 0 <= k < peers@.len() ==> (#[trigger] peers@[k]).wf(),
            decreases peer_count - i,
        {
            let ghost before = peers@;
            peers.push(Peer::new(PeerID(i)));
            i = i + 1;
            assert(peer_views(peers@) =~= Seq::new(
                i as nat,
                |k: int| PeerView::spec_new(PeerID(k as usize)),
            )) by {
                assert forall|k: int| 0 <= k < i implies peer_views(peers@)[k] == PeerView::spec_new(
                    PeerID(k as usize),
                ) by {
                    if k < i - 1 {
                        assert(peers@[k] == before[k]);
                        assert(peer_views(before)[k] == PeerView::spec_new(PeerID(k as usize)));
                    }
                }
            }
            assert forall|k: int| 0 <= k < peers@.len() implies (#[trigger] peers@[k]).wf() by {
                if k < i - 1 {
                    assert(peers@[k] == before[k]);
                }
            }
        }
        let host = Host {
                peers,
                settings: HostSettings {
                    mtu: HOST_DEFAULT_MTU,
                    incoming_bandwidth,
                    outgoing_bandwidth,
                    channel_limit,
                },
                checksum: false,
                seed,
                dropped: 0,
                bandwidth_epoch: 0,
                incoming_data_total: 0,
                outgoing_data_total: 0,
                held: VecDeque::new(),
            };
        assert(host@.held =~= Seq::empty());
        Ok(host)
    }

    /// Number of peer slots.
    pub fn peer_count(&self) -> (n: usize)
        ensures
            n == self@.peers.len(),
    {
        self.peers.len()
    }

    /// The peer in the given slot, if the host has such a slot.
    pub fn peer(&self, id: PeerID) -> (peer: Option<&Peer>)
        ensures
            peer is Some <==> id.0 < self@.peers.len(),
            peer matches Some(p) ==> p@ == self@.peers[id.0 as int] && (self.wf() ==> p.wf()),
    {
        if id.0 < self.peers.len() {
            let p = &self.peers[id.0];
            assert(p@ == peer_views(self.peers@)[id.0 as int]);
            Some(p)
        } else {
            None
        }
    }

    /// What the host hands to a peer that connects.
    pub fn settings(&self) -> (s: HostSettings)
        ensures
            s == self@.settings,
    {
        self.settings
    }

    /// Number of datagrams that were dropped as malformed or misdirected.
    pub fn dropped(&self) -> (n: u32)
        ensures
            n == self@.dropped,
    {
        self.dropped
    }

    /// Sets the bandwidths of the host in bytes per second, 0 for no limit.
    /// The peers in the connected family tell their remote hosts of them.
    pub fn bandwidth_limit(&mut self, incoming_bandwidth: u32, outgoing_bandwidth: u32)
        requires
            old(self).wf(),
        ensures
            final(self).wf(),
            final(self)@ == (HostView {
                settings: HostSettings {
                    incoming_bandwidth,
                    outgoing_bandwidth,
                    ..old(self)@.settings
                },
                peers: Seq::new(
                    old(self)@.peers.len(),
                    |i: int|
                        old(self)@.peers[i].after_bandwidth_change(
                            incoming_bandwidth,
                            outgoing_bandwidth,
                        ),
                ),
                ..old(self)@
            }),
    {
        let ghost before = self@;
        let mut i: usize = 0;
        while i < self.peers.len()
            invariant
                i <= self.peers@.len(),
                self.wf(),
                self@ == (HostView { peers: self@.peers, ..before }),
                self@.peers.len() == before.peers.len(),
                forall|k: int|
                    0 <= k < self@.peers.len() ==> #[trigger] self@.peers[k] == if k < i {
                        before.peers[k].after_bandwidth_change(
                            incoming_bandwidth,
                            outgoing_bandwidth,
                        )
                    } else {
                        before.peers[k]
                    },
            decreases self.peers@.len() - i,
        {
            let ghost current = self@;
            let ghost peers = self.peers@;
            assert(peers[i as int].wf());
            assert(peers[i as int]@ == current.peers[i as int]);
            proof {
                self.lemma_wf();
            }
            self.peers[i].announce_bandwidth(incoming_bandwidth, outgoing_bandwidth);
            proof {
                assert(self.peers@ =~= peers.update(i as int, self.peers@[i as int]));
                self.lemma_moved(current, peers, i as int);
            }
            i = i + 1;
        }
        self.settings.incoming_bandwidth = incoming_bandwidth;
        self.settings.outgoing_bandwidth = outgoing_bandwidth;
        proof {
            assert(self@.peers =~= Seq::new(
                before.peers.len(),
                |i: int|
                    before.peers[i].after_bandwidth_change(incoming_bandwidth, outgoing_bandwidth),
            ));
        }
    }

    /// Sets the largest number of channels that a session is allowed, held
    /// between 1 and 255.
    pub fn channel_limit(&mut self, limit: usize)
        ensures
            final(self)@ == (HostView {
                settings: HostSettings {
                    channel_limit: crate::peer::control::spec_clamp(
                        limit as int,
                        PROTOCOL_MINIMUM_CHANNEL_COUNT as int,
                        PROTOCOL_MAXIMUM_CHANNEL_COUNT as int,
                    ) as usize,
                    ..old(self)@.settings
                },
                ..old(self)@
            }),
            old(self).wf() ==> final(self).wf(),
    {
        self.settings.channel_limit = if limit < PROTOCOL_MINIMUM_CHANNEL_COUNT {
            PROTOCOL_MINIMUM_CHANNEL_COUNT
        } else if limit > PROTOCOL_MAXIMUM_CHANNEL_COUNT {
            PROTOCOL_MAXIMUM_CHANNEL_COUNT
        } else {
            limit
        };
    }

    /// Sets the MTU that new sessions start with; it is held within the
    /// protocol's limits when a session is set up.
    pub fn set_mtu(&mut self, mtu: u32)
        ensures
            final(self)@ == (HostView {
                settings: HostSettings { mtu, ..old(self)@.settings },
                ..old(self)@
            }),
            old(self).wf() ==> final(self).wf(),
    {
        self.settings.mtu = mtu;
    }

    /// Whether the datagrams of the host carry a checksum.
    pub fn checksum(&self) -> (enabled: bool)
        ensures
            enabled == self@.checksum,
    {
        self.checksum
    }

    /// Says whether the datagrams of the host carry a checksum. Both sides
    /// of a session have to agree on it.
    pub fn set_checksum(&mut self, enabled: bool)
        ensures
            final(self)@ == (HostView { checksum: enabled, ..old(self)@ }),
            old(self).wf() ==> final(self).wf(),
    {
        self.checksum = enabled;
    }

    /// The next nonce of the generator.
    fn random(&mut self) -> (n: u32)
        ensures
            n == spec_random(spec_next_seed(old(self)@.seed)),
            final(self)@ == (HostView { seed: spec_next_seed(old(self)@.seed), ..old(self)@ }),
            old(self).wf() ==> final(self).wf(),
    {
        self.seed = self.seed.wrapping_add(0x6D2B_79F5);
        let seed = self.seed;
        let a = seed ^ (seed >> 15);
        let b = a.wrapping_mul(seed | 1u32);
        let c = b ^ (b >> 7);
        let d = c.wrapping_mul(b | 61u32);
        let e = b ^ b.wrapping_add(d);
        e ^ (e >> 14)
    }

    /// The first slot from `from` on whose peer is disconnected.
    fn free_slot(&self) -> (slot: usize)
        ensures
            slot == spec_free_slot(self@.peers, 0),
            slot <= self@.peers.len(),
            slot < self@.peers.len() ==> self@.peers[slot as int].state == PeerState::Disconnected,
    {
        let ghost peers = self@.peers;
        let mut i: usize = 0;
        while i < self.peers.len()
            invariant
                i <= self.peers@.len(),
                peers == peer_views(self.peers@),
                spec_free_slot(peers, 0) == spec_free_slot(peers, i as int),
            decreases self.peers@.len() - i,
        {
            assert(peers[i as int] == self.peers@[i as int]@);
            if self.peers[i].state() == PeerState::Disconnected {
                return i;
            }
            i = i + 1;
        }
        i
    }

    /// Whether one of the peers is live and at the given address.
    fn in_session(&self, address: Address) -> (r: bool)
        ensures
            r == spec_in_session(self@.peers, address, 0),
    {
        let ghost peers = self@.peers;
        let mut i: usize = 0;
        while i < self.peers.len()
            invariant
                i <= self.peers@.len(),
                peers == peer_views(self.peers@),
                spec_in_session(peers, address, 0) == spec_in_session(peers, address, i as int),
            decreases self.peers@.len() - i,
        {
            assert(peers[i as int] == self.peers@[i as int]@);
            let state = self.peers[i].state();
            if state != PeerState::Disconnected && state != PeerState::Zombie {
                match self.peers[i].address() {
                    Some(a) => {
                        if a == address {
                            return true;
                        }
                    },
                    None => {},
                }
            }
            i = i + 1;
        }
        false
    }
}

/// If no peer from slot `i` on is live at the address, none of them is.
pub proof fn lemma_not_in_session(peers: Seq<PeerView>, address: Address, i: int, k: int)
    requires
        0 <= i <= k < peers.len(),
        !spec_in_session(peers, address, i),
    ensures
        !(peers[k].live() && peers[k].address == Some(address)),
    decreases k - i,
{
    if i < k {
        lemma_not_in_session(peers, address, i + 1, k);
    }
}

/// Taking the views of peers goes along with replacing one.
proof fn lemma_peer_views_update(s: Seq<Peer>, i: int, p: Peer)
    requires
        0 <= i < s.len(),
    ensures
        peer_views(s.update(i, p)) == peer_views(s).update(i, p@),
{
    assert(peer_views(s.update(i, p)) =~= peer_views(s).update(i, p@));
}

/// A host stays as every host is when one of its peers moves on as the
/// same peer.
pub proof fn lemma_keeping_peer(host: HostView, i: int, next: PeerView)
    requires
        host.inv(),
        0 <= i < host.peers.len(),
        host.peers[i].keeps(next),
    ensures
        host.with_peer(i, next).inv(),
{
    let after = host.with_peer(i, next);
    assert forall|a: int, b: int|
        0 <= a < b < after.peers.len() && (#[trigger] after.peers[a]).live() && (
        #[trigger] after.peers[b]).live() implies after.peers[a].address
        != after.peers[b].address by {
        assert(host.peers[a].live() && host.peers[b].live());
        assert(host.peers[a].address != host.peers[b].address);
    }
}

/// A host stays as every host is when a peer without a session takes up
/// one with an address at which no live peer is.
pub proof fn lemma_starting_peer(host: HostView, i: int, next: PeerView, address: Address)
    requires
        host.inv(),
        0 <= i < host.peers.len(),
        !host.peers[i].live(),
        next.id == host.peers[i].id,
        next.address == Some(address),
        !spec_in_session(host.peers, address, 0),
    ensures
        host.with_peer(i, next).inv(),
{
    let after = host.with_peer(i, next);
    assert forall|a: int, b: int|
        0 <= a < b < after.peers.len() && (#[trigger] after.peers[a]).live() && (
        #[trigger] after.peers[b]).live() implies after.peers[a].address
        != after.peers[b].address by {
        if a == i {
            lemma_not_in_session(host.peers, address, 0, b);
        } else if b == i {
            lemma_not_in_session(host.peers, address, 0, a);
        } else {
            assert(host.peers[a].address != host.peers[b].address);
        }
    }
}

/// The slot of the first live peer from slot `i` on that is at the given
/// address; the number of slots where there is none.
pub open spec fn spec_session_slot(peers: Seq<PeerView>, address: Address, i: int) -> int
    decreases peers.len() - i,
{
    if i < 0 || i >= peers.len() {
        peers.len() as int
    } else if peers[i].live() && peers[i].address == Some(address) {
        i
    } else {
        spec_session_slot(peers, address, i + 1)
    }
}

/// A live peer at the address is found in a slot, and none otherwise.
pub proof fn lemma_session_slot(peers: Seq<PeerView>, address: Address, i: int)
    requires
        0 <= i,
    ensures
        i <= spec_session_slot(peers, address, i) || spec_session_slot(peers, address, i)
            == peers.len(),
        spec_session_slot(peers, address, i) <= peers.len(),
        spec_session_slot(peers, address, i) < peers.len() <==> spec_in_session(
            peers,
            address,
            i,
        ),
        spec_session_slot(peers, address, i) < peers.len() ==> peers[spec_session_slot(
            peers,
            address,
            i,
        )].live() && peers[spec_session_slot(peers, address, i)].address == Some(address),
    decreases peers.len() - i,
{
    if i < peers.len() && !(peers[i].live() && peers[i].address == Some(address)) {
        lemma_session_slot(peers, address, i + 1);
    }
}

/// Whether the last session of one of the peers from slot `i` on was with the
/// given address under the given nonce.
pub open spec fn spec_had_session(
    peers: Seq<PeerView>,
    address: Address,
    connect_id: u32,
    i: int,
) -> bool
    decreases peers.len() - i,
{
    if i < 0 || i >= peers.len() {
        false
    } else {
        (peers[i].address == Some(address) && peers[i].session.connect_id == connect_id)
            || spec_had_session(peers, address, connect_id, i + 1)
    }
}

impl HostView {
    /// The host after the application asked to connect to `address`. Where
    /// a live peer is at the address already, or no slot is free, nothing
    /// changes; otherwise the generator gives out a nonce and the peer of
    /// the first free slot starts to connect.
    pub open spec fn after_connect(self, address: Address, channel_count: usize, data: u32) -> HostView {
        let slot = spec_free_slot(self.peers, 0);
        if spec_in_session(self.peers, address, 0) || slot >= self.peers.len() {
            self
        } else {
            let seed = spec_next_seed(self.seed);
            HostView {
                seed,
                peers: self.peers.update(
                    slot,
                    self.peers[slot].after_connect(
                        address,
                        channel_count,
                        data,
                        spec_random(seed),
                        self.settings,
                    ),
                ),
                ..self
            }
        }
    }

    /// Whether a connect command from `address` with the given nonce is
    /// taken.
    ///
    /// Where a live peer is at the address, the command is taken if it
    /// carries the nonce of that peer's session: it is a repetition. A
    /// command that carries the nonce of a session with the address that is
    /// over is stale, and is not taken. Otherwise the command is taken if a
    /// slot is free.
    pub open spec fn takes_connect(self, address: Address, connect_id: u32) -> bool {
        let known = spec_session_slot(self.peers, address, 0);
        if known < self.peers.len() {
            self.peers[known].session.connect_id == connect_id
        } else {
            !spec_had_session(self.peers, address, connect_id, 0) && spec_free_slot(
                self.peers,
                0,
            ) < self.peers.len()
        }
    }

    /// The host after a connect command arrived from `address`.
    ///
    /// A command that is not taken is dropped. A repetition is
    /// acknowledged again by the peer whose session it began. Otherwise the
    /// peer of the first free slot accepts the connect.
    pub open spec fn after_connect_command(
        self,
        address: Address,
        header: CommandHeader,
        handshake: Handshake,
        data: u32,
        sent_time: Option<u16>,
    ) -> HostView {
        let known = spec_session_slot(self.peers, address, 0);
        let slot = spec_free_slot(self.peers, 0);
        if !self.takes_connect(address, handshake.connect_id) {
            self.with_drop()
        } else if known < self.peers.len() {
            self.with_peer(known, self.peers[known].with_acknowledgement(header, sent_time))
        } else {
            self.with_peer(
                slot,
                self.peers[slot].after_accept(
                    address,
                    header,
                    handshake,
                    data,
                    sent_time,
                    self.settings,
                ),
            )
        }
    }

    /// Whether the peer in slot `i` takes a datagram with the given header
    /// and commands that came from `address`: it is live and at that
    /// address, the datagram belongs to its session, and the peer takes
    /// the commands in.
    pub open spec fn admits(self, i: int, address: Address, datagram: DatagramView) -> bool {
        let peer = self.peers[i];
        &&& peer.live()
        &&& peer.address == Some(address)
        &&& (peer.session.outgoing_peer_id < PROTOCOL_MAXIMUM_PEER_ID
            ==> datagram.header.session_id == peer.session.incoming_session_id)
        &&& peer.takes_in(datagram.commands)
    }

    /// Whether the bytes of a datagram without checksum that arrived from
    /// `address` are taken.
    ///
    /// Bytes that are no datagram are not. A datagram for no slot in
    /// particular is taken if its first command is a connect that is taken.
    /// A datagram for a slot is taken if the host has the slot and the peer
    /// of the slot admits it.
    pub open spec fn routes(self, address: Address, bytes: Seq<u8>) -> bool {
        match parse_datagram(bytes, false) {
            Err(_) => false,
            Ok(datagram) => {
                let slot = datagram.header.peer_id as int;
                if slot == PROTOCOL_MAXIMUM_PEER_ID {
                    match datagram.commands[0].body {
                        CommandBody::Connect { handshake, .. } => self.takes_connect(
                            address,
                            handshake.connect_id,
                        ),
                        _ => false,
                    }
                } else {
                    slot < self.peers.len() && self.admits(slot, address, datagram)
                }
            },
        }
    }

    /// Whether the bytes of a datagram that arrived from `address` are
    /// taken: where the host carries checksums, the checksum is that of the
    /// datagram and the datagram without it is taken; otherwise the
    /// datagram is taken as it is.
    pub open spec fn receives(self, address: Address, bytes: Seq<u8>) -> bool {
        if self.checksum {
            match spec_unsealed(bytes) {
                Some(inner) => self.routes(address, inner),
                None => false,
            }
        } else {
            self.routes(address, bytes)
        }
    }

    /// The host after the bytes of a datagram arrived from `address` at
    /// `now`. Where the host carries checksums, bytes whose checksum is not
    /// theirs are dropped, and the others go on without it.
    pub open spec fn after_receive(self, address: Address, bytes: Seq<u8>, now: u32) -> HostView {
        if self.checksum {
            match spec_unsealed(bytes) {
                Some(inner) => self.after_route(address, inner, now),
                None => self.with_drop(),
            }
        } else {
            self.after_route(address, bytes, now)
        }
    }

    /// The host after the bytes of a datagram without checksum arrived
    /// from `address` at `now`.
    ///
    /// Bytes that are not taken are dropped, and counted. A datagram for
    /// no slot in particular begins with a connect, which the host takes
    /// in. A datagram for a slot is handed to the peer of that slot.
    pub open spec fn after_route(self, address: Address, bytes: Seq<u8>, now: u32) -> HostView {
        if !self.routes(address, bytes) {
            self.with_drop()
        } else {
            let datagram = parse_datagram(bytes, false)->Ok_0;
            let slot = datagram.header.peer_id as int;
            if slot == PROTOCOL_MAXIMUM_PEER_ID {
                match datagram.commands[0].body {
                    CommandBody::Connect { handshake, data } => self.after_connect_command(
                        address,
                        datagram.commands[0].header,
                        handshake,
                        data,
                        datagram.header.sent_time,
                    ),
                    _ => self,
                }
            } else {
                self.with_peer(
                    slot,
                    self.peers[slot].after_datagram(
                        datagram,
                        (bytes.len() % 0x1_0000_0000) as u32,
                        now,
                    ),
                )
            }
        }
    }
}

impl Host {
    /// Initiates a connection to a foreign host. Returns the slot of the
    /// peer that stands for it. The nonce of the new session differs from
    /// that of the last session in the same slot.
    ///
    /// # Errors
    ///
    /// [`NoPeerAvailable`] where every slot is in use or a live peer is at
    /// the address already; nothing changes then.
    pub fn connect(&mut self, address: Address, channel_count: usize, data: u32) -> (r: Result<
        PeerID,
        NoPeerAvailable,
    >)
        requires
            old(self).wf(),
        ensures
            final(self).wf(),
            final(self)@ == old(self)@.after_connect(address, channel_count, data),
            r is Err <==> (spec_in_session(old(self)@.peers, address, 0) || spec_free_slot(
                old(self)@.peers,
                0,
            ) >= old(self)@.peers.len()),
            r matches Ok(id) ==> {
                &&& id.0 == spec_free_slot(old(self)@.peers, 0)
                &&& final(self)@.peers[id.0 as int].session.connect_id != old(
                    self,
                )@.peers[id.0 as int].session.connect_id
            },
    {
        if self.in_session(address) {
            return Err(NoPeerAvailable);
        }
        let slot = self.free_slot();
        if slot >= self.peers.len() {
            return Err(NoPeerAvailable);
        }
        let ghost before = self@;
        let connect_id = self.random();
        let settings = self.settings;
        let ghost peers = self.peers@;
        assert(peers[slot as int].wf());
        assert(peers[slot as int]@ == before.peers[slot as int]);
        self.peers[slot].connect(address, channel_count, data, connect_id, &settings);
        proof {
            let changed = self.peers@[slot as int];
            assert(self.peers@ =~= peers.update(slot as int, changed));
            lemma_peer_views_update(peers, slot as int, changed);
            lemma_starting_peer(before, slot as int, changed@, address);
            assert forall|i: int| 0 <= i < self.peers@.len() implies (#[trigger] self.peers@[i]).wf() by {
                if i != slot {
                    assert(self.peers@[i] == peers[i]);
                }
            }
        }
        Ok(PeerID(slot))
    }

    /// The slot of the live peer at the given address.
    fn session_slot(&self, address: Address) -> (slot: usize)
        ensures
            slot == spec_session_slot(self@.peers, address, 0),
            slot <= self@.peers.len(),
    {
        let ghost peers = self@.peers;
        let mut i: usize = 0;
        while i < self.peers.len()
            invariant
                i <= self.peers@.len(),
                peers == peer_views(self.peers@),
                spec_session_slot(peers, address, 0) == spec_session_slot(peers, address, i as int),
            decreases self.peers@.len() - i,
        {
            assert(peers[i as int] == self.peers@[i as int]@);
            let state = self.peers[i].state();
            if state != PeerState::Disconnected && state != PeerState::Zombie {
                match self.peers[i].address() {
                    Some(a) => {
                        if a == address {
                            return i;
                        }
                    },
                    None => {},
                }
            }
            i = i + 1;
        }
        i
    }

    /// Whether the last session of one of the peers was with the given
    /// address under the given nonce.
    fn had_session(&self, address: Address, connect_id: u32) -> (r: bool)
        ensures
            r == spec_had_session(self@.peers, address, connect_id, 0),
    {
        let ghost peers = self@.peers;
        let mut i: usize = 0;
        while i < self.peers.len()
            invariant
                i <= self.peers@.len(),
                peers == peer_views(self.peers@),
                spec_had_session(peers, address, connect_id, 0) == spec_had_session(
                    peers,
                    address,
                    connect_id,
                    i as int,
                ),
            decreases self.peers@.len() - i,
        {
            assert(peers[i as int] == self.peers@[i as int]@);
            if self.peers[i].session().connect_id == connect_id {
                match self.peers[i].address() {
                    Some(a) => {
                        if a == address {
                            return true;
                        }
                    },
                    None => {},
                }
            }
            i = i + 1;
        }
        false
    }

    /// Counts one more dropped datagram.
    fn count_drop(&mut self)
        requires
            old(self).wf(),
        ensures
            final(self).wf(),
            final(self)@ == old(self)@.with_drop(),
    {
        self.dropped = self.dropped.wrapping_add(1);
    }

    /// Takes in a connect command that arrived from `address`.
    #[verifier::rlimit(50)]
    fn connect_command(
        &mut self,
        address: Address,
        header: &CommandHeader,
        handshake: &Handshake,
        data: u32,
        sent_time: Option<u16>,
    ) -> (taken: bool)
        requires
            old(self).wf(),
        ensures
            final(self).wf(),
            taken == old(self)@.takes_connect(address, handshake.connect_id),
            final(self)@ == old(self)@.after_connect_command(
                address,
                *header,
                *handshake,
                data,
                sent_time,
            ),
    {
        let ghost before = self@;
        let ghost peers = self.peers@;
        let known = self.session_slot(address);
        proof {
            lemma_session_slot(before.peers, address, 0);
        }
        if known < self.peers.len() {
            assert(peers[known as int].wf());
            assert(peers[known as int]@ == before.peers[known as int]);
            if self.peers[known].session().connect_id == handshake.connect_id {
                self.peers[known].note_acknowledgement(header, sent_time);
                proof {
                    let changed = self.peers@[known as int];
                    assert(self.peers@ =~= peers.update(known as int, changed));
                    lemma_peer_views_update(peers, known as int, changed);
                    lemma_keeping_peer(before, known as int, changed@);
                    assert forall|i: int| 0 <= i < self.peers@.len() implies (
                    #[trigger] self.peers@[i]).wf() by {
                        if i != known {
                            assert(self.peers@[i] == peers[i]);
                        }
                    }
                }
                return true;
            }
            self.count_drop();
            return false;
        }
        if self.had_session(address, handshake.connect_id) {
            self.count_drop();
            return false;
        }
        let slot = self.free_slot();
        if slot >= self.peers.len() {
            self.count_drop();
            return false;
        }
        let settings = self.settings;
        assert(peers[slot as int].wf());
        assert(peers[slot as int]@ == before.peers[slot as int]);
        self.peers[slot].accept(address, header, handshake, data, sent_time, &settings);
        proof {
            let changed = self.peers@[slot as int];
            assert(self.peers@ =~= peers.update(slot as int, changed));
            lemma_peer_views_update(peers, slot as int, changed);
            lemma_starting_peer(before, slot as int, changed@, address);
            assert forall|i: int| 0 <= i < self.peers@.len() implies (#[trigger] self.peers@[i]).wf() by {
                if i != slot {
                    assert(self.peers@[i] == peers[i]);
                }
            }
        }
        true
    }

    /// The receive phase for one datagram: takes in the bytes that
    /// arrived from `address` at `now`. Returns whether they were taken;
    /// bytes that were not are counted as dropped, and change nothing
    /// else.
    pub fn receive(&mut self, address: Address, bytes: &[u8], now: u32) -> (taken: bool)
        requires
            old(self).wf(),
        ensures
            final(self).wf(),
            taken == old(self)@.receives(address, bytes@),
            final(self)@ == old(self)@.after_receive(address, bytes@, now),
            !taken ==> final(self)@ == old(self)@.with_drop(),
    {
        if self.checksum {
            match unseal(bytes) {
                Some(inner) => {
                    self.route(address, inner.as_slice(), now)
                },
                None => {
                    self.count_drop();
                    false
                },
            }
        } else {
            self.route(address, bytes, now)
        }
    }

    /// Takes in the bytes of a datagram without checksum.
    #[verifier::rlimit(50)]
    fn route(&mut self, address: Address, bytes: &[u8], now: u32) -> (taken: bool)
        requires
            old(self).wf(),
        ensures
            final(self).wf(),
            taken == old(self)@.routes(address, bytes@),
            final(self)@ == old(self)@.after_route(address, bytes@, now),
    {
        let datagram = match Datagram::decode(bytes, false) {
            Ok(datagram) => datagram,
            Err(_) => {
                self.count_drop();
                return false;
            },
        };
        let ghost before = self@;
        let ghost peers = self.peers@;
        proof {
            crate::datagram::lemma_parsed_datagram_has_commands(bytes@, false);
        }
        let slot = datagram.header.peer_id as usize;
        if slot == PROTOCOL_MAXIMUM_PEER_ID as usize {
            if datagram.commands.len() == 0 {
                self.count_drop();
                return false;
            }
            assert(datagram@.commands[0] == datagram.commands@[0]@);
            let header = datagram.commands[0].header;
            match datagram.commands[0].body {
                CommandBody::Connect { handshake, data } => {
                    return self.connect_command(
                        address,
                        &header,
                        &handshake,
                        data,
                        datagram.header.sent_time,
                    );
                },
                _ => {
                    self.count_drop();
                    return false;
                },
            }
        }
        if slot >= self.peers.len() {
            self.count_drop();
            return false;
        }
        assert(peers[slot as int].wf());
        assert(peers[slot as int]@ == before.peers[slot as int]);
        let state = self.peers[slot].state();
        let session = self.peers[slot].session();
        let at_address = match self.peers[slot].address() {
            Some(a) => a == address,
            None => false,
        };
        if state == PeerState::Disconnected || state == PeerState::Zombie || !at_address || (
        session.outgoing_peer_id < PROTOCOL_MAXIMUM_PEER_ID && datagram.header.session_id
            != session.incoming_session_id) {
            self.count_drop();
            return false;
        }
        let length = (bytes.len() as u64 % 0x1_0000_0000) as u32;
        let taken = self.peers[slot].receive(datagram, length, now);
        proof {
            let changed = self.peers@[slot as int];
            assert(self.peers@ =~= peers.update(slot as int, changed));
            lemma_peer_views_update(peers, slot as int, changed);
            lemma_keeping_peer(before, slot as int, changed@);
            assert forall|i: int| 0 <= i < self.peers@.len() implies (#[trigger] self.peers@[i]).wf() by {
                if i != slot {
                    assert(self.peers@[i] == peers[i]);
                }
            }
            if !taken {
                assert(before.peers.update(slot as int, before.peers[slot as int]) =~= before.peers);
            }
        }
        if !taken {
            self.count_drop();
        }
        taken
    }
}

/// The first slot from `i` on whose peer has an event for the application;
/// the number of slots where there is none.
pub open spec fn spec_event_slot(peers: Seq<PeerView>, i: int) -> int
    decreases peers.len() - i,
{
    if i < 0 || i >= peers.len() {
        peers.len() as int
    } else if peers[i].polled() is Some {
        i
    } else {
        spec_event_slot(peers, i + 1)
    }
}

/// What asking the peers for their next datagram yields.
pub struct Flushed {
    pub peers: Seq<PeerView>,
    pub output: Option<OutboundView>,
}

/// Asks the peers from slot `i` on for their next datagram at `now`, one
/// after the other, until one of them has one.
pub open spec fn spec_flush_from(peers: Seq<PeerView>, i: int, now: u32) -> Flushed
    decreases peers.len() - i,
{
    if i < 0 || i >= peers.len() {
        Flushed { peers, output: None }
    } else if peers[i].flush_output(now) is Some {
        Flushed {
            peers: peers.update(i, peers[i].after_flush(now)),
            output: peers[i].flush_output(now),
        }
    } else {
        spec_flush_from(peers.update(i, peers[i].after_flush(now)), i + 1, now)
    }
}

impl HostView {
    /// The event that the application gets when it asks for the next one:
    /// that of the first peer that has one.
    pub open spec fn polled(self) -> Option<EventView> {
        let slot = spec_event_slot(self.peers, 0);
        if slot < self.peers.len() {
            self.peers[slot].polled()
        } else {
            None
        }
    }

    /// The host after the application asked for the next event.
    pub open spec fn after_poll(self) -> HostView {
        let slot = spec_event_slot(self.peers, 0);
        if slot < self.peers.len() {
            self.with_peer(slot, self.peers[slot].after_poll())
        } else {
            self
        }
    }

    /// The datagram that leaves the host next at `now`, if one does: the
    /// first of those that the endpoint could not take, or else that of the
    /// first peer that has one, with its checksum where the host carries
    /// checksums.
    pub open spec fn flush_output(self, now: u32) -> Option<OutboundView> {
        if self.held.len() > 0 {
            Some(self.held[0])
        } else {
            match spec_flush_from(self.peers, 0, now).output {
                Some(out) => Some(
                    OutboundView {
                        address: out.address,
                        bytes: if self.checksum {
                            spec_sealed(out.bytes)
                        } else {
                            out.bytes
                        },
                    },
                ),
                None => None,
            }
        }
    }

    /// The host after it was asked for its next datagram at `now`: a
    /// datagram that was held back is held no more; where there is none,
    /// the peers have been asked in the order of their slots, up to the
    /// first that has a datagram.
    pub open spec fn after_flush(self, now: u32) -> HostView {
        if self.held.len() > 0 {
            HostView { held: self.held.drop_first(), ..self }
        } else {
            HostView { peers: spec_flush_from(self.peers, 0, now).peers, ..self }
        }
    }

    /// The host after the endpoint could not take the given datagram: the
    /// datagram is held back, before the others that are.
    pub open spec fn holding(self, out: OutboundView) -> HostView {
        HostView { held: seq![out] + self.held, ..self }
    }

    /// The host after the timeout phase at `now`: every peer has had its
    /// timeouts looked at.
    pub open spec fn after_timeouts(self, now: u32) -> HostView {
        HostView {
            peers: Seq::new(self.peers.len(), |i: int| self.peers[i].after_timeouts(now)),
            ..self
        }
    }

    /// The host after the given packet was queued for every connected
    /// peer on the given channel.
    pub open spec fn after_broadcast(self, channel_id: u8, packet: PacketView) -> HostView {
        HostView {
            peers: Seq::new(
                self.peers.len(),
                |i: int|
                    if self.peers[i].state == PeerState::Connected {
                        self.peers[i].after_send(channel_id, packet)
                    } else {
                        self.peers[i]
                    },
            ),
            ..self
        }
    }
}

impl Host {
    /// Puts the peer of the given slot back into the invariant after it has
    /// moved on as the same peer.
    proof fn lemma_moved(&self, before: HostView, peers: Seq<Peer>, slot: int)
        requires
            before.inv(),
            0 <= slot < peers.len(),
            before.peers == peer_views(peers),
            forall|i: int| 0 <= i < peers.len() ==> (#[trigger] peers[i]).wf(),
            self.peers@ == peers.update(slot, self.peers@[slot]),
            self.peers@[slot].wf(),
            before.peers[slot].keeps(self.peers@[slot]@),
            self.settings == before.settings,
            self.checksum == before.checksum,
            self.seed == before.seed,
            self.dropped == before.dropped,
            self.bandwidth_epoch == before.bandwidth_epoch,
            self.incoming_data_total == before.incoming_data_total,
            self.outgoing_data_total == before.outgoing_data_total,
            outbound_views(self.held@) == before.held,
        ensures
            self.wf(),
            self@ == before.with_peer(slot, self.peers@[slot]@),
    {
        let changed = self.peers@[slot];
        lemma_peer_views_update(peers, slot, changed);
        lemma_keeping_peer(before, slot, changed@);
        assert forall|i: int| 0 <= i < self.peers@.len() implies (#[trigger] self.peers@[i]).wf() by {
            if i != slot {
                assert(self.peers@[i] == peers[i]);
            }
        }
    }

    /// Hands the next event to the application, if a peer has one.
    pub fn poll_event(&mut self) -> (event: Option<Event>)
        requires
            old(self).wf(),
        ensures
            final(self).wf(),
            match event {
                Some(e) => old(self)@.polled() == Some(e@),
                None => old(self)@.polled() is None,
            },
            final(self)@ == old(self)@.after_poll(),
    {
        let ghost before = self@;
        let mut i: usize = 0;
        while i < self.peers.len()
            invariant
                i <= self.peers@.len(),
                self.wf(),
                self@ == before,
                before == old(self)@,
                spec_event_slot(before.peers, 0) == spec_event_slot(before.peers, i as int),
            decreases self.peers@.len() - i,
        {
            let ghost peers = self.peers@;
            assert(peers[i as int].wf());
            assert(peers[i as int]@ == before.peers[i as int]);
            let event = self.peers[i].poll_event();
            proof {
                assert(self.peers@ =~= peers.update(i as int, self.peers@[i as int]));
                self.lemma_moved(before, peers, i as int);
            }
            match event {
                Some(event) => {
                    proof {
                        assert(before.peers[i as int].polled() == Some(event@));
                        assert(spec_event_slot(before.peers, i as int) == i);
                    }
                    return Some(event);
                },
                None => {
                    proof {
                        assert(before.peers[i as int].polled() is None);
                        assert(before.peers.update(i as int, before.peers[i as int])
                            =~= before.peers);
                    }
                },
            }
            i = i + 1;
        }
        None
    }

    /// The send phase: the next datagram that is to leave the host at
    /// `now`, if there is one. Datagrams that the endpoint could not take
    /// leave first. Then the peers are asked in the order of their slots;
    /// the phase is over when there is none. Where the host carries
    /// checksums the datagram leaves with its checksum.
    pub fn next_datagram(&mut self, now: u32) -> (out: Option<Outbound>)
        requires
            old(self).wf(),
        ensures
            final(self).wf(),
            match out {
                Some(o) => old(self)@.flush_output(now) == Some(o@),
                None => old(self)@.flush_output(now) is None,
            },
            final(self)@ == old(self)@.after_flush(now),
    {
        if self.held.len() > 0 {
            let ghost waiting = self.held@;
            proof {
                lemma_outbound_views_remove(waiting, 0);
                assert(outbound_views(waiting).remove(0) =~= outbound_views(waiting).drop_first());
                assert(waiting.remove(0) =~= waiting.subrange(1, waiting.len() as int));
            }
            return self.held.pop_front();
        }
        match self.next_plain(now) {
            Some(out) => {
                if self.checksum {
                    Some(Outbound { address: out.address, bytes: seal(out.bytes.as_slice()) })
                } else {
                    Some(out)
                }
            },
            None => None,
        }
    }

    /// Takes back a datagram that the endpoint could not take. It leaves
    /// first when the host sends again.
    pub fn hold_back(&mut self, out: Outbound)
        requires
            old(self).wf(),
        ensures
            final(self).wf(),
            final(self)@ == old(self)@.holding(out@),
    {
        let ghost waiting = self.held@;
        self.held.push_front(out);
        proof {
            assert(self.held@ =~= seq![out] + waiting);
            assert(outbound_views(self.held@) =~= seq![out@] + outbound_views(waiting));
        }
    }

    /// Number of datagrams that the endpoint could not take yet.
    pub fn held(&self) -> (n: usize)
        ensures
            n == self@.held.len(),
    {
        self.held.len()
    }

    /// The next datagram that is to leave the host, without checksum.
    fn next_plain(&mut self, now: u32) -> (out: Option<Outbound>)
        requires
            old(self).wf(),
        ensures
            final(self).wf(),
            match out {
                Some(o) => spec_flush_from(old(self)@.peers, 0, now).output == Some(o@),
                None => spec_flush_from(old(self)@.peers, 0, now).output is None,
            },
            final(self)@ == (HostView {
                peers: spec_flush_from(old(self)@.peers, 0, now).peers,
                ..old(self)@
            }),
    {
        let ghost before = self@;
        let mut i: usize = 0;
        while i < self.peers.len()
            invariant
                i <= self.peers@.len(),
                self.wf(),
                self@ == (HostView { peers: self@.peers, ..before }),
                self@.peers.len() == before.peers.len(),
                before == old(self)@,
                spec_flush_from(before.peers, 0, now) == spec_flush_from(self@.peers, i as int, now),
            decreases self.peers@.len() - i,
        {
            let ghost current = self@;
            let ghost peers = self.peers@;
            assert(peers[i as int].wf());
            assert(peers[i as int]@ == current.peers[i as int]);
            proof {
                self.lemma_wf();
            }
            let out = self.peers[i].next_datagram(now);
            proof {
                assert(self.peers@ =~= peers.update(i as int, self.peers@[i as int]));
                self.lemma_moved(current, peers, i as int);
            }
            match out {
                Some(out) => {
                    proof {
                        assert(current.peers[i as int].flush_output(now) == Some(out@));
                        assert(spec_flush_from(current.peers, i as int, now).output == Some(out@));
                    }
                    return Some(out);
                },
                None => {
                    proof {
                        assert(current.peers[i as int].flush_output(now) is None);
                    }
                },
            }
            i = i + 1;
        }
        None
    }

    /// The timeout phase at `now`: every peer gives up its session or marks
    /// the commands that are to be sent again.
    pub fn service_timeouts(&mut self, now: u32)
        requires
            old(self).wf(),
        ensures
            final(self).wf(),
            final(self)@ == old(self)@.after_timeouts(now),
    {
        let ghost before = self@;
        let mut i: usize = 0;
        while i < self.peers.len()
            invariant
                i <= self.peers@.len(),
                self.wf(),
                self@ == (HostView { peers: self@.peers, ..before }),
                self@.peers.len() == before.peers.len(),
                forall|k: int|
                    0 <= k < self@.peers.len() ==> #[trigger] self@.peers[k] == if k < i {
                        before.peers[k].after_timeouts(now)
                    } else {
                        before.peers[k]
                    },
            decreases self.peers@.len() - i,
        {
            let ghost current = self@;
            let ghost peers = self.peers@;
            assert(peers[i as int].wf());
            assert(peers[i as int]@ == current.peers[i as int]);
            proof {
                self.lemma_wf();
            }
            self.peers[i].service_timeouts(now);
            proof {
                assert(self.peers@ =~= peers.update(i as int, self.peers@[i as int]));
                self.lemma_moved(current, peers, i as int);
            }
            i = i + 1;
        }
        proof {
            assert(self@.peers =~= before.after_timeouts(now).peers);
        }
    }

    /// Queues a packet to be sent to all peers associated with the host
    /// that are connected. The throttle of a peer may drop the packet for
    /// that peer, and a peer that cannot take it leaves it out.
    pub fn broadcast(&mut self, channel_id: u8, packet: &Packet)
        requires
            old(self).wf(),
        ensures
            final(self).wf(),
            final(self)@ == old(self)@.after_broadcast(channel_id, packet@),
    {
        let ghost before = self@;
        let mut i: usize = 0;
        while i < self.peers.len()
            invariant
                i <= self.peers@.len(),
                self.wf(),
                self@ == (HostView { peers: self@.peers, ..before }),
                self@.peers.len() == before.peers.len(),
                forall|k: int|
                    0 <= k < self@.peers.len() ==> #[trigger] self@.peers[k] == if k < i
                        && before.peers[k].state == PeerState::Connected {
                        before.peers[k].after_send(channel_id, packet@)
                    } else {
                        before.peers[k]
                    },
            decreases self.peers@.len() - i,
        {
            let ghost current = self@;
            let ghost peers = self.peers@;
            assert(peers[i as int].wf());
            assert(peers[i as int]@ == current.peers[i as int]);
            proof {
                self.lemma_wf();
            }
            if self.peers[i].connected() {
                let _ = self.peers[i].send(channel_id, packet);
                proof {
                    assert(self.peers@ =~= peers.update(i as int, self.peers@[i as int]));
                    self.lemma_moved(current, peers, i as int);
                }
            }
            i = i + 1;
        }
        proof {
            assert(self@.peers =~= before.after_broadcast(channel_id, packet@).peers);
        }
    }

    /// Queues a packet to be sent to the peer of the given slot on the
    /// given channel. See [`Peer::send`].
    ///
    /// # Errors
    ///
    /// [`HostError::NoSuchPeer`] where the host has no such slot, and what
    /// the peer says otherwise; nothing changes then.
    pub fn send(&mut self, id: PeerID, channel_id: u8, packet: &Packet) -> (r: Result<
        (),
        HostError,
    >)
        requires
            old(self).wf(),
        ensures
            final(self).wf(),
            id.0 >= old(self)@.peers.len() ==> r == Err::<(), HostError>(HostError::NoSuchPeer)
                && final(self)@ == old(self)@,
            id.0 < old(self)@.peers.len() ==> {
                &&& r == match old(self)@.peers[id.0 as int].send_error(channel_id, packet@) {
                    Some(e) => Err::<(), HostError>(HostError::Send(e)),
                    None => Ok(()),
                }
                &&& final(self)@ == old(self)@.with_peer(
                    id.0 as int,
                    old(self)@.peers[id.0 as int].after_send(channel_id, packet@),
                )
            },
    {
        let slot = id.0;
        if slot >= self.peers.len() {
            return Err(HostError::NoSuchPeer);
        }
        let ghost before = self@;
        let ghost peers = self.peers@;
        assert(peers[slot as int].wf());
        assert(peers[slot as int]@ == before.peers[slot as int]);
        proof {
            self.lemma_wf();
        }
        let r = self.peers[slot].send(channel_id, packet);
        proof {
            assert(self.peers@ =~= peers.update(slot as int, self.peers@[slot as int]));
            self.lemma_moved(before, peers, slot as int);
        }
        match r {
            Ok(()) => Ok(()),
            Err(e) => Err(HostError::Send(e)),
        }
    }

    /// Requests a disconnection from the peer of the given slot. See
    /// [`Peer::disconnect`].
    ///
    /// # Errors
    ///
    /// [`NotConnected`] where the host has no such slot or the peer is not
    /// in the connected family of states; nothing changes then.
    pub fn disconnect(&mut self, id: PeerID, data: u32) -> (r: Result<(), NotConnected>)
        requires
            old(self).wf(),
        ensures
            final(self).wf(),
            r is Ok <==> id.0 < old(self)@.peers.len() && old(self)@.peers[id.0 as int].state.spec_in_connected_family(),
            id.0 >= old(self)@.peers.len() ==> final(self)@ == old(self)@,
            id.0 < old(self)@.peers.len() ==> final(self)@ == old(self)@.with_peer(
                id.0 as int,
                old(self)@.peers[id.0 as int].after_disconnect(data),
            ),
    {
        let slot = id.0;
        if slot >= self.peers.len() {
            return Err(NotConnected);
        }
        let ghost before = self@;
        let ghost peers = self.peers@;
        assert(peers[slot as int].wf());
        assert(peers[slot as int]@ == before.peers[slot as int]);
        proof {
            self.lemma_wf();
        }
        let r = self.peers[slot].disconnect(data);
        proof {
            assert(self.peers@ =~= peers.update(slot as int, self.peers@[slot as int]));
            self.lemma_moved(before, peers, slot as int);
        }
        r
    }

    /// Requests a disconnection from the peer of the given slot once all
    /// its queued packets are sent. See [`Peer::disconnect_later`].
    ///
    /// # Errors
    ///
    /// [`NotConnected`] where the host has no such slot or the peer is not
    /// in the connected family of states; nothing changes then.
    pub fn disconnect_later(&mut self, id: PeerID, data: u32) -> (r: Result<(), NotConnected>)
        requires
            old(self).wf(),
        ensures
            final(self).wf(),
            r is Ok <==> id.0 < old(self)@.peers.len() && old(self)@.peers[id.0 as int].state.spec_in_connected_family(),
            id.0 >= old(self)@.peers.len() ==> final(self)@ == old(self)@,
            id.0 < old(self)@.peers.len() ==> final(self)@ == old(self)@.with_peer(
                id.0 as int,
                old(self)@.peers[id.0 as int].after_disconnect_later(data),
            ),
    {
        let slot = id.0;
        if slot >= self.peers.len() {
            return Err(NotConnected);
        }
        let ghost before = self@;
        let ghost peers = self.peers@;
        assert(peers[slot as int].wf());
        assert(peers[slot as int]@ == before.peers[slot as int]);
        proof {
            self.lemma_wf();
        }
        let r = self.peers[slot].disconnect_later(data);
        proof {
            assert(self.peers@ =~= peers.update(slot as int, self.peers@[slot as int]));
            self.lemma_moved(before, peers, slot as int);
        }
        r
    }

    /// Forces an immediate disconnection from the peer of the given slot.
    /// See [`Peer::disconnect_now`]. A slot that the host does not have is
    /// left alone.
    pub fn disconnect_now(&mut self, id: PeerID, data: u32)
        requires
            old(self).wf(),
        ensures
            final(self).wf(),
            id.0 >= old(self)@.peers.len() ==> final(self)@ == old(self)@,
            id.0 < old(self)@.peers.len() ==> final(self)@ == old(self)@.with_peer(
                id.0 as int,
                old(self)@.peers[id.0 as int].after_disconnect_now(data),
            ),
    {
        let slot = id.0;
        if slot >= self.peers.len() {
            return ;
        }
        let ghost before = self@;
        let ghost peers = self.peers@;
        assert(peers[slot as int].wf());
        assert(peers[slot as int]@ == before.peers[slot as int]);
        proof {
            self.lemma_wf();
        }
        self.peers[slot].disconnect_now(data);
        proof {
            assert(self.peers@ =~= peers.update(slot as int, self.peers@[slot as int]));
            self.lemma_moved(before, peers, slot as int);
        }
    }

    /// Forcefully disconnects the peer of the given slot, and lets a
    /// disconnect command leave for the foreign host if the peer had a
    /// session. See [`Peer::reset`]. A slot that the host does not have is
    /// left alone.
    pub fn reset(&mut self, id: PeerID)
        requires
            old(self).wf(),
        ensures
            final(self).wf(),
            id.0 >= old(self)@.peers.len() ==> final(self)@ == old(self)@,
            id.0 < old(self)@.peers.len() ==> final(self)@ == old(self)@.with_peer(
                id.0 as int,
                old(self)@.peers[id.0 as int].after_reset(),
            ),
    {
        let slot = id.0;
        if slot >= self.peers.len() {
            return ;
        }
        let ghost before = self@;
        let ghost peers = self.peers@;
        assert(peers[slot as int].wf());
        assert(peers[slot as int]@ == before.peers[slot as int]);
        proof {
            self.lemma_wf();
        }
        self.peers[slot].reset();
        proof {
            assert(self.peers@ =~= peers.update(slot as int, self.peers@[slot as int]));
            self.lemma_moved(before, peers, slot as int);
        }
    }

    /// Sends a ping request to the peer of the given slot. See
    /// [`Peer::ping`].
    ///
    /// # Errors
    ///
    /// [`NotConnected`] where the host has no such slot or the peer is not
    /// in the connected family of states; nothing changes then.
    pub fn ping(&mut self, id: PeerID) -> (r: Result<(), NotConnected>)
        requires
            old(self).wf(),
        ensures
            final(self).wf(),
            r is Ok <==> id.0 < old(self)@.peers.len() && old(self)@.peers[id.0 as int].state.spec_in_connected_family(),
            id.0 >= old(self)@.peers.len() ==> final(self)@ == old(self)@,
            id.0 < old(self)@.peers.len() ==> final(self)@ == old(self)@.with_peer(
                id.0 as int,
                old(self)@.peers[id.0 as int].after_ping(),
            ),
    {
        let slot = id.0;
        if slot >= self.peers.len() {
            return Err(NotConnected);
        }
        let ghost before = self@;
        let ghost peers = self.peers@;
        assert(peers[slot as int].wf());
        assert(peers[slot as int]@ == before.peers[slot as int]);
        proof {
            self.lemma_wf();
        }
        let r = self.peers[slot].ping();
        proof {
            assert(self.peers@ =~= peers.update(slot as int, self.peers@[slot as int]));
            self.lemma_moved(before, peers, slot as int);
        }
        r
    }

    /// Sets the timeout parameters of the peer of the given slot. See
    /// [`Peer::set_timeout`]. A slot that the host does not have is left
    /// alone.
    pub fn set_timeout(&mut self, id: PeerID, limit: u32, minimum: u32, maximum: u32)
        requires
            old(self).wf(),
        ensures
            final(self).wf(),
            id.0 >= old(self)@.peers.len() ==> final(self)@ == old(self)@,
            id.0 < old(self)@.peers.len() ==> final(self)@ == old(self)@.with_peer(
                id.0 as int,
                PeerView {
                    timeouts: crate::timeout::TimeoutPolicy::spec_configured(
                        limit,
                        minimum,
                        maximum,
                    ),
                    ..old(self)@.peers[id.0 as int]
                },
            ),
    {
        let slot = id.0;
        if slot >= self.peers.len() {
            return ;
        }
        let ghost before = self@;
        let ghost peers = self.peers@;
        assert(peers[slot as int].wf());
        assert(peers[slot as int]@ == before.peers[slot as int]);
        proof {
            self.lemma_wf();
        }
        self.peers[slot].set_timeout(limit, minimum, maximum);
        proof {
            assert(self.peers@ =~= peers.update(slot as int, self.peers@[slot as int]));
            self.lemma_moved(before, peers, slot as int);
        }
    }

    /// Sets the throttle parameters of the peer of the given slot. See
    /// [`Peer::set_throttle`]. A slot that the host does not have is left
    /// alone.
    pub fn set_throttle(&mut self, id: PeerID, interval: u32, acceleration: u32, deceleration: u32)
        requires
            old(self).wf(),
        ensures
            final(self).wf(),
            id.0 >= old(self)@.peers.len() ==> final(self)@ == old(self)@,
            id.0 < old(self)@.peers.len() ==> final(self)@ == old(self)@.with_peer(
                id.0 as int,
                old(self)@.peers[id.0 as int].after_set_throttle(
                    interval,
                    acceleration,
                    deceleration,
                ),
            ),
    {
        let slot = id.0;
        if slot >= self.peers.len() {
            return ;
        }
        let ghost before = self@;
        let ghost peers = self.peers@;
        assert(peers[slot as int].wf());
        assert(peers[slot as int]@ == before.peers[slot as int]);
        proof {
            self.lemma_wf();
        }
        self.peers[slot].set_throttle(interval, acceleration, deceleration);
        proof {
            assert(self.peers@ =~= peers.update(slot as int, self.peers@[slot as int]));
            self.lemma_moved(before, peers, slot as int);
        }
    }

    /// Sets the ping interval of the peer of the given slot. See
    /// [`Peer::set_ping_interval`]. A slot that the host does not have is
    /// left alone.
    pub fn set_ping_interval(&mut self, id: PeerID, ping_interval: u32)
        requires
            old(self).wf(),
        ensures
            final(self).wf(),
            id.0 >= old(self)@.peers.len() ==> final(self)@ == old(self)@,
            id.0 < old(self)@.peers.len() ==> final(self)@ == old(self)@.with_peer(
                id.0 as int,
                PeerView {
                    session: crate::peer::Session {
                        ping_interval: crate::timeout::spec_or_default(
                            ping_interval,
                            crate::consts::PEER_PING_INTERVAL,
                        ),
                        ..old(self)@.peers[id.0 as int].session
                    },
                    ..old(self)@.peers[id.0 as int]
                },
            ),
    {
        let slot = id.0;
        if slot >= self.peers.len() {
            return ;
        }
        let ghost before = self@;
        let ghost peers = self.peers@;
        assert(peers[slot as int].wf());
        assert(peers[slot as int]@ == before.peers[slot as int]);
        proof {
            self.lemma_wf();
        }
        self.peers[slot].set_ping_interval(ping_interval);
        proof {
            assert(self.peers@ =~= peers.update(slot as int, self.peers@[slot as int]));
            self.lemma_moved(before, peers, slot as int);
        }
    }
}

/// What the bandwidth limiter counts over the peers that share the
/// bandwidth of the host: those in the connected family of states.
pub struct Census {
    /// Sum of the bandwidths that the peers with a limit advertise.
    pub advertised: int,
    /// Number of peers that advertise no limit.
    pub unlimited: int,
    /// Bytes that the peers received in the epoch, modulo 2^32.
    pub incoming: int,
    /// Bytes that the peers sent in the epoch, modulo 2^32.
    pub outgoing: int,
}

/// The census of the peers from slot `i` on.
pub open spec fn spec_census(peers: Seq<PeerView>, i: int) -> Census
    decreases peers.len() - i,
{
    if i < 0 || i >= peers.len() {
        Census { advertised: 0, unlimited: 0, incoming: 0, outgoing: 0 }
    } else {
        let rest = spec_census(peers, i + 1);
        let peer = peers[i];
        if !peer.state.spec_in_connected_family() {
            rest
        } else {
            Census {
                advertised: rest.advertised + peer.session.incoming_bandwidth,
                unlimited: rest.unlimited + if peer.session.incoming_bandwidth == 0 {
                    1int
                } else {
                    0
                },
                incoming: (rest.incoming + peer.counters.incoming_data_total) % 0x1_0000_0000,
                outgoing: (rest.outgoing + peer.counters.outgoing_data_total) % 0x1_0000_0000,
            }
        }
    }
}

/// The bytes that a host with the given upstream bandwidth may send in an
/// epoch of `elapsed` milliseconds.
pub open spec fn spec_budget(bandwidth: u32, elapsed: u32) -> int {
    bandwidth as int * elapsed as int / 1000
}

/// The share of the budget of a peer that advertises the bandwidth
/// `advertised`, where the peers with a limit advertise `total` together:
/// its part of the budget by its part of the total, and no more than its own
/// bandwidth lets it take in the epoch.
pub open spec fn spec_limited_share(budget: int, elapsed: u32, total: int, advertised: u32) -> int {
    let by_part = budget * advertised as int / total;
    let by_limit = spec_budget(advertised, elapsed);
    if by_part <= by_limit {
        by_part
    } else {
        by_limit
    }
}

/// The shares of the peers with a limit from slot `i` on, together.
pub open spec fn spec_limited_shares(
    peers: Seq<PeerView>,
    i: int,
    budget: int,
    elapsed: u32,
    total: int,
) -> int
    decreases peers.len() - i,
{
    if i < 0 || i >= peers.len() {
        0
    } else {
        let rest = spec_limited_shares(peers, i + 1, budget, elapsed, total);
        let peer = peers[i];
        if peer.state.spec_in_connected_family() && peer.session.incoming_bandwidth > 0 {
            rest + spec_limited_share(budget, elapsed, total, peer.session.incoming_bandwidth)
        } else {
            rest
        }
    }
}

/// The window size that goes with a share of the budget: the share, held
/// within the protocol's limits.
pub open spec fn spec_window_for(share: int) -> u32 {
    crate::peer::control::spec_clamp(
        share,
        crate::consts::PROTOCOL_MINIMUM_WINDOW_SIZE as int,
        crate::consts::PROTOCOL_MAXIMUM_WINDOW_SIZE as int,
    ) as u32
}

impl HostView {
    /// Whether a bandwidth epoch ends at `now`.
    pub open spec fn epoch_over(self, now: u32) -> bool {
        crate::time::spec_time_difference(now, self.bandwidth_epoch)
            >= crate::consts::HOST_BANDWIDTH_THROTTLE_INTERVAL
    }

    /// What is left of the budget of the epoch that ends at `now` once the
    /// peers with a limit have their shares.
    pub open spec fn remaining_budget(self, now: u32) -> int {
        let elapsed = crate::time::spec_time_difference(now, self.bandwidth_epoch) as u32;
        let budget = spec_budget(self.settings.outgoing_bandwidth, elapsed);
        let taken = spec_limited_shares(
            self.peers,
            0,
            budget,
            elapsed,
            spec_census(self.peers, 0).advertised,
        );
        if taken >= budget {
            0
        } else {
            budget - taken
        }
    }

    /// The window size of the peer in slot `i` for the epoch that begins at
    /// `now`. A host without a limit leaves the window as it is. Otherwise
    /// a peer that advertises a bandwidth gets the window of its share of
    /// the budget, and the peers that advertise none share equally what
    /// the others leave.
    pub open spec fn window_of(self, i: int, now: u32) -> u32 {
        let elapsed = crate::time::spec_time_difference(now, self.bandwidth_epoch) as u32;
        let budget = spec_budget(self.settings.outgoing_bandwidth, elapsed);
        let census = spec_census(self.peers, 0);
        let peer = self.peers[i];
        if self.settings.outgoing_bandwidth == 0 {
            peer.session.window_size
        } else if peer.session.incoming_bandwidth > 0 {
            spec_window_for(
                spec_limited_share(budget, elapsed, census.advertised, peer.session.incoming_bandwidth),
            )
        } else {
            spec_window_for(self.remaining_budget(now) / census.unlimited)
        }
    }

    /// The host after the bandwidth limiter has run at `now`. Before the
    /// epoch is over nothing changes. At its end the host totals the data
    /// of the peers in the connected family, gives each of them its window
    /// for the next epoch, and a new epoch begins.
    pub open spec fn after_bandwidth_throttle(self, now: u32) -> HostView {
        if !self.epoch_over(now) {
            self
        } else {
            HostView {
                peers: Seq::new(
                    self.peers.len(),
                    |i: int|
                        if self.peers[i].state.spec_in_connected_family() {
                            self.peers[i].after_epoch(self.window_of(i, now))
                        } else {
                            self.peers[i]
                        },
                ),
                bandwidth_epoch: now,
                incoming_data_total: spec_census(self.peers, 0).incoming as u32,
                outgoing_data_total: spec_census(self.peers, 0).outgoing as u32,
                ..self
            }
        }
    }
}

/// What the bandwidth limiter has counted.
struct Tally {
    advertised: u64,
    unlimited: usize,
    incoming: u32,
    outgoing: u32,
}

/// The share of the budget of a peer that advertises a bandwidth.
fn limited_share(budget: u64, elapsed: u32, total: u64, advertised: u32) -> (share: u128)
    requires
        total > 0,
    ensures
        share == spec_limited_share(budget as int, elapsed, total as int, advertised),
        share <= 0xFFFF_FFFF_FFFF_FFFF,
{
    assert(budget as u128 * advertised as u128 <= 0xFFFF_FFFF_FFFF_FFFF * 0xFFFF_FFFF)
        by (nonlinear_arith)
        requires
            budget <= 0xFFFF_FFFF_FFFF_FFFF,
            advertised <= 0xFFFF_FFFF,
    ;
    assert(advertised as u64 * elapsed as u64 <= 0xFFFF_FFFF * 0xFFFF_FFFF) by (nonlinear_arith)
        requires
            advertised <= 0xFFFF_FFFF,
            elapsed <= 0xFFFF_FFFF,
    ;
    let by_part: u128 = budget as u128 * advertised as u128 / total as u128;
    let by_limit: u128 = (advertised as u64 * elapsed as u64 / 1000) as u128;
    if by_part <= by_limit {
        by_part
    } else {
        by_limit
    }
}

/// The window size that goes with a share of the budget.
fn window_for(share: u128) -> (window: u32)
    ensures
        window == spec_window_for(share as int),
        crate::consts::PROTOCOL_MINIMUM_WINDOW_SIZE <= window
            <= crate::consts::PROTOCOL_MAXIMUM_WINDOW_SIZE,
{
    if share < crate::consts::PROTOCOL_MINIMUM_WINDOW_SIZE as u128 {
        crate::consts::PROTOCOL_MINIMUM_WINDOW_SIZE
    } else if share > crate::consts::PROTOCOL_MAXIMUM_WINDOW_SIZE as u128 {
        crate::consts::PROTOCOL_MAXIMUM_WINDOW_SIZE
    } else {
        share as u32
    }
}

impl Host {
    /// Counts the peers that share the bandwidth of the host.
    fn census(&self) -> (tally: Tally)
        requires
            self.wf(),
        ensures
            tally.advertised == spec_census(self@.peers, 0).advertised,
            tally.unlimited == spec_census(self@.peers, 0).unlimited,
            tally.incoming == spec_census(self@.peers, 0).incoming,
            tally.outgoing == spec_census(self@.peers, 0).outgoing,
    {
        let ghost peers = self@.peers;
        let mut tally = Tally { advertised: 0, unlimited: 0, incoming: 0, outgoing: 0 };
        let mut i: usize = self.peers.len();
        proof {
            self.lemma_wf();
        }
        while i > 0
            invariant
                i <= self.peers@.len(),
                peers == peer_views(self.peers@),
                peers.len() <= PROTOCOL_MAXIMUM_PEER_ID,
                tally.advertised == spec_census(peers, i as int).advertised,
                tally.unlimited == spec_census(peers, i as int).unlimited,
                tally.incoming == spec_census(peers, i as int).incoming,
                tally.outgoing == spec_census(peers, i as int).outgoing,
                tally.advertised <= (peers.len() - i) * 0x1_0000_0000,
                tally.unlimited <= peers.len() - i,
            decreases i,
        {
            i = i - 1;
            assert(peers[i as int] == self.peers@[i as int]@);
            let peer = &self.peers[i];
            if peer.state().in_connected_family() {
                let advertised = peer.incoming_bandwidth();
                tally.advertised = tally.advertised + advertised as u64;
                if advertised == 0 {
                    tally.unlimited = tally.unlimited + 1;
                }
                tally.incoming = tally.incoming.wrapping_add(peer.incoming_data_total());
                tally.outgoing = tally.outgoing.wrapping_add(peer.outgoing_data_total());
            }
        }
        tally
    }

    /// The shares of the peers with a limit, together.
    fn limited_shares(&self, budget: u64, elapsed: u32, total: u64) -> (sum: u128)
        requires
            self.wf(),
            total == spec_census(self@.peers, 0).advertised,
        ensures
            sum == spec_limited_shares(self@.peers, 0, budget as int, elapsed, total as int),
    {
        let ghost peers = self@.peers;
        let mut sum: u128 = 0;
        let mut i: usize = self.peers.len();
        proof {
            self.lemma_wf();
        }
        while i > 0
            invariant
                i <= self.peers@.len(),
                peers == peer_views(self.peers@),
                peers.len() <= PROTOCOL_MAXIMUM_PEER_ID,
                total == spec_census(peers, 0).advertised,
                sum == spec_limited_shares(peers, i as int, budget as int, elapsed, total as int),
                sum <= (peers.len() - i) * 0x1_0000_0000_0000_0000,
            decreases i,
        {
            i = i - 1;
            assert(peers[i as int] == self.peers@[i as int]@);
            let peer = &self.peers[i];
            let advertised = peer.incoming_bandwidth();
            if peer.state().in_connected_family() && advertised > 0 {
                proof {
                    lemma_census_counts(peers, 0, i as int);
                }
                sum = sum + limited_share(budget, elapsed, total, advertised);
            }
        }
        sum
    }

    /// The bandwidth limiter: at the end of a bandwidth epoch the host
    /// totals the data of its connected peers and gives each of them its
    /// window for the next epoch. Returns whether an epoch ended.
    #[verifier::rlimit(50)]
    pub fn bandwidth_throttle(&mut self, now: u32) -> (ended: bool)
        requires
            old(self).wf(),
        ensures
            final(self).wf(),
            ended == old(self)@.epoch_over(now),
            final(self)@ == old(self)@.after_bandwidth_throttle(now),
    {
        let elapsed = crate::time::time_difference(now, self.bandwidth_epoch);
        if elapsed < crate::consts::HOST_BANDWIDTH_THROTTLE_INTERVAL {
            return false;
        }
        let ghost before = self@;
        let limit = self.settings.outgoing_bandwidth;
        assert(limit as u64 * elapsed as u64 <= 0xFFFF_FFFF * 0xFFFF_FFFF) by (nonlinear_arith)
            requires
                limit <= 0xFFFF_FFFF,
                elapsed <= 0xFFFF_FFFF,
        ;
        let budget: u64 = limit as u64 * elapsed as u64 / 1000;
        let tally = self.census();
        let taken = self.limited_shares(budget, elapsed, tally.advertised);
        let remaining: u128 = if taken >= budget as u128 {
            0
        } else {
            budget as u128 - taken
        };
        let mut i: usize = 0;
        while i < self.peers.len()
            invariant
                i <= self.peers@.len(),
                self.wf(),
                self@ == (HostView { peers: self@.peers, ..before }),
                self@.peers.len() == before.peers.len(),
                before.epoch_over(now),
                elapsed == crate::time::spec_time_difference(now, before.bandwidth_epoch),
                limit == before.settings.outgoing_bandwidth,
                budget == spec_budget(limit, elapsed),
                tally.advertised == spec_census(before.peers, 0).advertised,
                tally.unlimited == spec_census(before.peers, 0).unlimited,
                remaining == before.remaining_budget(now),
                forall|k: int|
                    0 <= k < self@.peers.len() ==> #[trigger] self@.peers[k] == if k < i
                        && before.peers[k].state.spec_in_connected_family() {
                        before.peers[k].after_epoch(before.window_of(k, now))
                    } else {
                        before.peers[k]
                    },
            decreases self.peers@.len() - i,
        {
            let ghost current = self@;
            let ghost peers = self.peers@;
            assert(peers[i as int].wf());
            assert(peers[i as int]@ == current.peers[i as int]);
            assert(current.peers[i as int] == before.peers[i as int]);
            proof {
                self.lemma_wf();
            }
            if self.peers[i].state().in_connected_family() {
                let advertised = self.peers[i].incoming_bandwidth();
                proof {
                    lemma_census_counts(before.peers, 0, i as int);
                }
                let window = if limit == 0 {
                    self.peers[i].session().window_size
                } else if advertised > 0 {
                    window_for(limited_share(budget, elapsed, tally.advertised, advertised))
                } else {
                    window_for(remaining / tally.unlimited as u128)
                };
                proof {
                    self.peers@[i as int].lemma_wf();
                }
                self.peers[i].start_epoch(window);
                proof {
                    assert(self.peers@ =~= peers.update(i as int, self.peers@[i as int]));
                    self.lemma_moved(current, peers, i as int);
                }
            }
            i = i + 1;
        }
        self.bandwidth_epoch = now;
        self.incoming_data_total = tally.incoming;
        self.outgoing_data_total = tally.outgoing;
        proof {
            assert(self@.peers =~= before.after_bandwidth_throttle(now).peers);
        }
        true
    }

    /// Bytes that the connected peers received in the last bandwidth epoch.
    pub fn incoming_data_total(&self) -> (n: u32)
        ensures
            n == self@.incoming_data_total,
    {
        self.incoming_data_total
    }

    /// Bytes that the connected peers sent in the last bandwidth epoch.
    pub fn outgoing_data_total(&self) -> (n: u32)
        ensures
            n == self@.outgoing_data_total,
    {
        self.outgoing_data_total
    }
}

/// A peer in the connected family is counted in the census: the advertised
/// total is at least its bandwidth, and a peer without a limit is one of the
/// unlimited ones.
proof fn lemma_census_counts(peers: Seq<PeerView>, i: int, k: int)
    requires
        0 <= i <= k < peers.len(),
        peers[k].state.spec_in_connected_family(),
    ensures
        spec_census(peers, i).advertised >= peers[k].session.incoming_bandwidth,
        peers[k].session.incoming_bandwidth == 0 ==> spec_census(peers, i).unlimited >= 1,
        spec_census(peers, i).advertised >= 0,
        spec_census(peers, i).unlimited >= 0,
    decreases k - i,
{
    lemma_census_positive(peers, i + 1);
    if i < k {
        lemma_census_counts(peers, i + 1, k);
    }
}

/// A census counts nothing negative.
proof fn lemma_census_positive(peers: Seq<PeerView>, i: int)
    ensures
        spec_census(peers, i).advertised >= 0,
        spec_census(peers, i).unlimited >= 0,
    decreases peers.len() - i,
{
    if 0 <= i < peers.len() {
        lemma_census_positive(peers, i + 1);
    }
}

/// A datagram of another session is refused: where the peer of a slot
/// knows the slot of the remote host, the host takes no datagram for it
/// that carries another session number than the one of the session, from
/// whatever address it comes and whatever it holds.
pub proof fn lemma_datagram_of_another_session_is_refused(
    host: HostView,
    i: int,
    address: Address,
    datagram: DatagramView,
)
    requires
        0 <= i < host.peers.len(),
        host.peers[i].session.outgoing_peer_id < PROTOCOL_MAXIMUM_PEER_ID,
        datagram.header.session_id != host.peers[i].session.incoming_session_id,
    ensures
        !host.admits(i, address, datagram),
{
}

} // verus!
