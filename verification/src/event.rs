//! Packets on their way through the plugin: which are translated, which are left
//! alone, and which are refused.
use vstd::prelude::*;
use crate::connection;
use crate::connection::Connections;
use crate::item_nbt;
use crate::version;
use crate::version::Release;
use crate::version::Version;
use crate::wire;

verus! {

#[derive(Clone, Copy, PartialEq, Eq, Structural)]
pub enum PacketDirection {
    Serverbound,
    Clientbound,
}

/// A packet to be sent along: its number and its payload.
pub struct PacketTranslationOutput {
    pub packet_id: i32,
    pub raw_payload: Vec<u8>,
}

#[verifier::ext_equal]
pub struct Output {
    pub packet_id: i32,
    pub raw_payload: Seq<u8>,
}

impl View for PacketTranslationOutput {
    type V = Output;

    open spec fn view(&self) -> Output {
        Output { packet_id: self.packet_id, raw_payload: self.raw_payload@ }
    }
}

pub open spec fn output_views(outputs: Seq<PacketTranslationOutput>) -> Seq<Output> {
    outputs.map_values(|output: PacketTranslationOutput| output@)
}

/// A packet that passes through, with what becomes of it.
pub struct ProtocolPacketEvent {
    pub connection_id: u64,
    /// The player's key, once the connection has a player.
    pub player: Option<u64>,
    pub direction: PacketDirection,
    pub packet_id: i32,
    pub raw_payload: Vec<u8>,
    pub protocol_version: i32,
    /// Handshake, status, login, transfer, configuration, play, from zero on.
    pub connection_state: u8,
    pub translated: bool,
    pub clientbound_packets: Vec<PacketTranslationOutput>,
    pub serverbound_packets: Vec<PacketTranslationOutput>,
    pub cancelled: bool,
}

#[verifier::ext_equal]
pub struct Event {
    pub connection_id: u64,
    pub player: Option<u64>,
    pub direction: PacketDirection,
    pub packet_id: i32,
    pub raw_payload: Seq<u8>,
    pub protocol_version: i32,
    pub connection_state: u8,
    pub translated: bool,
    pub clientbound_packets: Seq<Output>,
    pub serverbound_packets: Seq<Output>,
    pub cancelled: bool,
}

impl View for ProtocolPacketEvent {
    type V = Event;

    open spec fn view(&self) -> Event {
        Event {
            connection_id: self.connection_id,
            player: self.player,
            direction: self.direction,
            packet_id: self.packet_id,
            raw_payload: self.raw_payload@,
            protocol_version: self.protocol_version,
            connection_state: self.connection_state,
            translated: self.translated,
            clientbound_packets: output_views(self.clientbound_packets@),
            serverbound_packets: output_views(self.serverbound_packets@),
            cancelled: self.cancelled,
        }
    }
}

// --- what a translation gives --------------------------------------------------------

/// A packet by the numbers it has on either side; a negative number is none.
#[derive(Clone, Copy, PartialEq, Eq, Structural)]
pub struct PacketIds {
    pub server: i32,
    pub client: i32,
}

pub struct TranslatedPacket {
    pub ids: PacketIds,
    pub payload: Vec<u8>,
}

/// What a translation gave: the packet, whether it goes on, and the packets that go
/// with it to either side.
pub struct Translated {
    pub ids: PacketIds,
    pub payload: Vec<u8>,
    pub cancelled: bool,
    pub serverbound: Vec<TranslatedPacket>,
    pub clientbound: Vec<TranslatedPacket>,
}

/// The packets that one side has a number for, from the i-th on.
pub open spec fn sent_from(packets: Seq<TranslatedPacket>, to_server: bool, i: int) -> Seq<Output>
    decreases packets.len() - i,
{
    if i < 0 || i >= packets.len() {
        seq![]
    } else {
        let id = if to_server {
            packets[i].ids.server
        } else {
            packets[i].ids.client
        };
        let rest = sent_from(packets, to_server, i + 1);
        if id >= 0 {
            seq![Output { packet_id: id, raw_payload: packets[i].payload@ }] + rest
        } else {
            rest
        }
    }
}

pub open spec fn sent(packets: Seq<TranslatedPacket>, to_server: bool) -> Seq<Output> {
    sent_from(packets, to_server, 0)
}

/// Queues the packets that one side has a number for.
#[verifier::loop_isolation(false)]
fn send(queue: &mut Vec<PacketTranslationOutput>, packets: &Vec<TranslatedPacket>, to_server: bool)
    ensures
        output_views(final(queue)@) == output_views(old(queue)@) + sent(packets@, to_server),
{
    let ghost before = output_views(queue@);
    let mut i: usize = 0;
    proof {
        assert(before + sent(packets@, to_server) =~= output_views(queue@) + sent_from(packets@, to_server, 0));
    }
    while i < packets.len()
        invariant
            i <= packets.len(),
            before + sent(packets@, to_server) == output_views(queue@) + sent_from(packets@, to_server, i as int),
        decreases packets.len() - i,
    {
        let id: i32 = if to_server { packets[i].ids.server } else { packets[i].ids.client };
        let ghost start = queue@;
        if id >= 0 {
            queue.push(PacketTranslationOutput { packet_id: id, raw_payload: packets[i].payload.clone() });
            proof {
                let output = Output { packet_id: id, raw_payload: packets@[i as int].payload@ };
                assert(output_views(queue@) =~= output_views(start).push(output));
                assert(output_views(queue@) + sent_from(packets@, to_server, i + 1) =~= output_views(start)
                    + (seq![output] + sent_from(packets@, to_server, i + 1)));
            }
        }
        i = i + 1;
    }
    assert(output_views(queue@) + sent_from(packets@, to_server, i as int) =~= output_views(queue@));
}

/// A packet with the packets that go along with it.
pub open spec fn accompanied(event: Event, translated: Translated) -> Event {
    Event {
        serverbound_packets: event.serverbound_packets + sent(translated.serverbound@, true),
        clientbound_packets: event.clientbound_packets + sent(translated.clientbound@, false),
        ..event
    }
}

/// What becomes of a client's packet once its translation is known.
pub open spec fn serverbound_end(event: Event, translated: Option<Translated>) -> Event {
    match translated {
        Some(translated) => if translated.cancelled {
            Event { cancelled: true, ..accompanied(event, translated) }
        } else {
            Event {
                packet_id: translated.ids.server,
                raw_payload: translated.payload@,
                ..accompanied(event, translated)
            }
        },
        None => Event { cancelled: true, ..event },
    }
}

/// What becomes of a server's packet once its translation is known: one that the
/// client has no number for goes no further.
pub open spec fn clientbound_end(event: Event, translated: Option<Translated>) -> Event {
    match translated {
        Some(translated) => if translated.cancelled {
            Event { translated: true, cancelled: true, ..accompanied(event, translated) }
        } else if translated.ids.client < 0 {
            Event { cancelled: true, ..event }
        } else {
            Event {
                translated: true,
                packet_id: translated.ids.client,
                raw_payload: translated.payload@,
                ..accompanied(event, translated)
            }
        },
        None => Event { cancelled: true, ..event },
    }
}

fn accompany(event: &mut ProtocolPacketEvent, translated: &Translated)
    ensures
        final(event)@ == accompanied(old(event)@, *translated),
{
    send(&mut event.serverbound_packets, &translated.serverbound, true);
    send(&mut event.clientbound_packets, &translated.clientbound, false);
}

/// Completes a client's packet with what its translation gave.
pub fn finish_serverbound(event: ProtocolPacketEvent, translated: Option<Translated>) -> (res: ProtocolPacketEvent)
    ensures
        res@ == serverbound_end(event@, translated),
{
    let mut event: ProtocolPacketEvent = event;
    match translated {
        Some(translated) => {
            accompany(&mut event, &translated);
            if translated.cancelled {
                event.cancelled = true;
            } else {
                event.packet_id = translated.ids.server;
                event.raw_payload = translated.payload;
            }
        },
        None => {
            event.cancelled = true;
        },
    }
    event
}

/// Completes a server's packet with what its translation gave.
pub fn finish_clientbound(event: ProtocolPacketEvent, translated: Option<Translated>) -> (res: ProtocolPacketEvent)
    ensures
        res@ == clientbound_end(event@, translated),
{
    let mut event: ProtocolPacketEvent = event;
    match translated {
        Some(translated) => {
            if !translated.cancelled && translated.ids.client < 0 {
                event.cancelled = true;
                return event;
            }
            event.translated = true;
            accompany(&mut event, &translated);
            if translated.cancelled {
                event.cancelled = true;
            } else {
                event.packet_id = translated.ids.client;
                event.raw_payload = translated.payload;
            }
        },
        None => {
            event.cancelled = true;
        },
    }
    event
}

// --- refusals -------------------------------------------------------------------------------

/// What a client that may not join is told.
pub open spec fn refusal_text(releases: Seq<Release>, version: Version) -> Seq<u8> {
    wire::key("This server supports Minecraft ") + version::name_of(releases, version::LOWEST_SUPPORTED)
        + wire::key(" to ") + version::name_of(releases, version::HIGHEST_SUPPORTED) + wire::key(". You are on ")
        + version::name_of(releases, version) + wire::key(".")
}

/// What becomes of a packet for a client that may not join. The first login packet
/// turns into a disconnect with a readable reason; status packets are left alone,
/// since the client already shows itself as incompatible there; all else goes no
/// further.
pub open spec fn refused(event: Event, release: Release, releases: Seq<Release>) -> Event {
    if event.connection_state == 1 {
        Event { cancelled: false, ..event }
    } else if (event.connection_state != 2 && event.connection_state != 3) || release.login_disconnect == -1 {
        Event { cancelled: true, clientbound_packets: seq![], ..event }
    } else {
        Event {
            packet_id: release.login_disconnect,
            raw_payload: wire::enc_str(
                item_nbt::json_text(refusal_text(releases, release.version), wire::key("red")),
            ),
            translated: true,
            clientbound_packets: seq![],
            ..event
        }
    }
}

fn write_refusal(releases: &Vec<Release>, version: Version) -> (res: Vec<u8>)
    ensures
        res@ == refusal_text(releases@, version),
{
    let mut out: Vec<u8> = Vec::new();
    wire::write_bytes(&mut out, "This server supports Minecraft ".as_bytes());
    wire::write_bytes(&mut out, version::version_name(releases, version::LOWEST_SUPPORTED).as_slice());
    wire::write_bytes(&mut out, " to ".as_bytes());
    wire::write_bytes(&mut out, version::version_name(releases, version::HIGHEST_SUPPORTED).as_slice());
    wire::write_bytes(&mut out, ". You are on ".as_bytes());
    wire::write_bytes(&mut out, version::version_name(releases, version).as_slice());
    wire::write_bytes(&mut out, ".".as_bytes());
    assert(out@ =~= refusal_text(releases@, version));
    out
}

/// Turns a packet for a client that may not join into its refusal.
pub fn refuse_unsupported(event: ProtocolPacketEvent, release: &Release, releases: &Vec<Release>) -> (res:
    ProtocolPacketEvent)
    ensures
        res@ == refused(event@, *release, releases@),
{
    let mut event: ProtocolPacketEvent = event;
    let state: u8 = event.connection_state;
    if state == 1 {
        event.cancelled = false;
        return event;
    }
    event.clientbound_packets = Vec::new();
    assert(output_views(event.clientbound_packets@) =~= seq![]);
    if (state != 2 && state != 3) || release.login_disconnect == -1 {
        event.cancelled = true;
        return event;
    }
    let text: Vec<u8> = write_refusal(releases, release.version);
    let reason: Vec<u8> = item_nbt::colored_json(text.as_slice(), "red".as_bytes());
    let mut payload: Vec<u8> = Vec::new();
    wire::write_str(&mut payload, reason.as_slice());
    assert(payload@ =~= wire::enc_str(reason@));
    event.packet_id = release.login_disconnect;
    event.raw_payload = payload;
    event.translated = true;
    event
}

// --- the plugin ----------------------------------------------------------------------------------

/// What is to be done with a packet: nothing more, or a translation, whose outcome
/// completes it.
pub enum Step {
    Done(ProtocolPacketEvent),
    Translate(ProtocolPacketEvent, Version),
}

pub enum StepView {
    Done(Event),
    Translate(Event, Version),
}

impl View for Step {
    type V = StepView;

    open spec fn view(&self) -> StepView {
        match self {
            Step::Done(event) => StepView::Done(event@),
            Step::Translate(event, version) => StepView::Translate(event@, *version),
        }
    }
}

/// The release of a client, by the protocol number of its packets.
pub fn event_version(releases: &Vec<Release>, protocol_version: i32) -> (res: Option<Version>)
    ensures
        res == match version::release_of(releases@, protocol_version) {
            Some(release) => Some(release.version),
            None => None,
        },
{
    match version::find_release(releases, protocol_version) {
        Some(release) => Some(release.version),
        None => None,
    }
}

/// The first decision on a packet. One of an unknown release, or of the server's
/// own, is left alone.
pub open spec fn decided(event: Event, releases: Seq<Release>) -> StepView {
    match version::release_of(releases, event.protocol_version) {
        Some(release) => if release.version == version::V_26_3 {
            StepView::Done(event)
        } else {
            match event.direction {
                PacketDirection::Serverbound => if !version::is_version_supported(release.version) {
                    StepView::Done(event)
                } else if event.connection_state < 2 {
                    StepView::Done((Event { translated: true, ..event }))
                } else {
                    StepView::Translate((Event { translated: true, ..event }), release.version)
                },
                PacketDirection::Clientbound => if !version::is_version_supported(release.version) {
                    StepView::Done(refused(event, release, releases))
                } else if event.connection_state == 0 {
                    StepView::Done((Event { translated: true, ..event }))
                } else {
                    StepView::Translate(event, release.version)
                },
            }
        },
        None => StepView::Done(event),
    }
}

/// Whether a packet is the first that tells which player its connection belongs to.
pub open spec fn binds(event: Event, releases: Seq<Release>, connections: Connections) -> bool {
    match version::release_of(releases, event.protocol_version) {
        Some(release) => release.version != version::V_26_3 && event.player is Some && !connection::has_player(
            connections.entries@,
            event.connection_id,
        ),
        None => false,
    }
}

/// The plugin that lets older clients join: the connections, and the releases that
/// it knows.
pub struct MultiVersionPlugin {
    pub connections: Connections,
    pub releases: Vec<Release>,
}

impl MultiVersionPlugin {
    /// Decides on a packet, and remembers the player of its connection.
    pub fn translate_protocol_packet(&mut self, event: ProtocolPacketEvent, now: u64) -> (res: Step)
        ensures
            res@ == decided(event@, old(self).releases@),
            final(self).releases@ == old(self).releases@,
            if binds(event@, old(self).releases@, old(self).connections) {
                connection::bound(
                    old(self).connections,
                    final(self).connections,
                    event.connection_id,
                    version::release_of(old(self).releases@, event.protocol_version).unwrap().version,
                    event.player.unwrap(),
                    now,
                )
            } else {
                final(self).connections == old(self).connections
            },
    {
        let release: &Release = match version::find_release(&self.releases, event.protocol_version) {
            Some(release) => release,
            None => {
                return Step::Done(event);
            },
        };
        let version: Version = release.version;
        if version == version::V_26_3 {
            return Step::Done(event);
        }
        if let Some(player) = event.player {
            if !connection::is_bound(&self.connections, event.connection_id) {
                connection::bind_player(&mut self.connections, event.connection_id, version, player, now);
            }
        }
        let mut event: ProtocolPacketEvent = event;
        let supported: bool = version::is_version_supported(version);
        match event.direction {
            PacketDirection::Serverbound => {
                // Login starts pass, so that older clients can be refused.
                if !supported {
                    return Step::Done(event);
                }
                event.translated = true;
                if event.connection_state < 2 {
                    return Step::Done(event);
                }
                Step::Translate(event, version)
            },
            PacketDirection::Clientbound => {
                if !supported {
                    return Step::Done(refuse_unsupported(event, release, &self.releases));
                }
                if event.connection_state == 0 {
                    event.translated = true;
                    return Step::Done(event);
                }
                Step::Translate(event, version)
            },
        }
    }

    /// Completes a packet with what its translation gave. The state of a status
    /// probe, which never becomes a player, goes with its first answer.
    pub fn complete(&mut self, event: ProtocolPacketEvent, translated: Option<Translated>) -> (res: ProtocolPacketEvent)
        ensures
            res@ == match event.direction {
                PacketDirection::Serverbound => serverbound_end(event@, translated),
                PacketDirection::Clientbound => clientbound_end(event@, translated),
            },
            final(self).releases@ == old(self).releases@,
            final(self).connections.players == old(self).connections.players,
            final(self).connections.fresh == old(self).connections.fresh,
            final(self).connections.entries@ == if event.direction == PacketDirection::Clientbound
                && event.connection_state == 1 {
                connection::forgotten(old(self).connections.entries@, event.connection_id)
            } else {
                old(self).connections.entries@
            },
    {
        match event.direction {
            PacketDirection::Serverbound => finish_serverbound(event, translated),
            PacketDirection::Clientbound => {
                if event.connection_state == 1 {
                    connection::remove_connection(&mut self.connections, event.connection_id);
                }
                finish_clientbound(event, translated)
            },
        }
    }
}

// --- laws -----------------------------------------------------------------------------------

/// A client below the oldest supported release is never sent a translated packet
/// but the disconnect: whatever the server sends it outside the status exchange is
/// cancelled, or is that disconnect with nothing beside it.
pub proof fn unsupported_clients_are_refused(event: Event, releases: Seq<Release>)
    requires
        event.direction == PacketDirection::Clientbound,
        event.connection_state != 1,
        version::release_of(releases, event.protocol_version) is Some,
        version::release_of(releases, event.protocol_version).unwrap().version < version::LOWEST_SUPPORTED,
    ensures
        decided(event, releases) matches StepView::Done(end) && end.clientbound_packets == Seq::<Output>::empty()
            && (end.cancelled || end.packet_id == version::release_of(
            releases,
            event.protocol_version,
        ).unwrap().login_disconnect),
{
}

/// The server's own release is never touched, and neither is a client of no known
/// release.
pub proof fn native_packets_pass(event: Event, releases: Seq<Release>)
    requires
        match version::release_of(releases, event.protocol_version) {
            Some(release) => release.version == version::V_26_3,
            None => true,
        },
    ensures
        decided(event, releases) == StepView::Done(event),
{
}

proof fn lemma_sent_have_numbers(packets: Seq<TranslatedPacket>, to_server: bool, i: int)
    requires
        0 <= i,
    ensures
        forall|k: int|
            0 <= k < sent_from(packets, to_server, i).len() ==> (#[trigger] sent_from(
                packets,
                to_server,
                i,
            )[k]).packet_id >= 0,
    decreases packets.len() - i,
{
    if i < packets.len() {
        lemma_sent_have_numbers(packets, to_server, i + 1);
        let rest = sent_from(packets, to_server, i + 1);
        assert forall|k: int| 0 <= k < sent_from(packets, to_server, i).len() implies (#[trigger] sent_from(
            packets,
            to_server,
            i,
        )[k]).packet_id >= 0 by {
            if sent_from(packets, to_server, i).len() != rest.len() && k > 0 {
                assert(sent_from(packets, to_server, i)[k] == rest[k - 1]);
            } else if sent_from(packets, to_server, i).len() == rest.len() {
                assert(sent_from(packets, to_server, i)[k] == rest[k]);
            }
        }
    }
}

/// A packet that its receiver has no number for is never sent: every packet that a
/// translation sends along has one, and so does the packet itself unless it is
/// cancelled.
pub proof fn packets_without_a_number_are_not_sent(event: Event, translated: Option<Translated>)
    ensures
        clientbound_end(event, translated).cancelled || clientbound_end(event, translated).packet_id >= 0,
        translated matches Some(translated) ==> forall|k: int|
            0 <= k < sent(translated.clientbound@, false).len() ==> (#[trigger] sent(
                translated.clientbound@,
                false,
            )[k]).packet_id >= 0,
        translated matches Some(translated) ==> forall|k: int|
            0 <= k < sent(translated.serverbound@, true).len() ==> (#[trigger] sent(
                translated.serverbound@,
                true,
            )[k]).packet_id >= 0,
{
    if let Some(translated) = translated {
        lemma_sent_have_numbers(translated.clientbound@, false, 0);
        lemma_sent_have_numbers(translated.serverbound@, true, 0);
    }
}

} // verus!
