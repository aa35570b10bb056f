use java_multiversion::connection::{is_bound, with_connection, Connections};
use java_multiversion::event::{
    event_version, finish_clientbound, finish_serverbound, MultiVersionPlugin, PacketDirection, PacketIds,
    ProtocolPacketEvent, Step, Translated, TranslatedPacket,
};
use java_multiversion::version;
use java_multiversion::version::{is_version_supported, Release, LOWEST_SUPPORTED};

/// The protocol numbers of 1.16.2 and 1.20.3 are those of the releases; the others
/// only have to differ.
const PROTOCOL_1_12_2: i32 = 340;
const PROTOCOL_1_16_2: i32 = 751;
const PROTOCOL_1_20_3: i32 = 765;
const PROTOCOL_26_2: i32 = 776;
const PROTOCOL_26_3: i32 = 777;

fn release(protocol: i32, version: u32, name: &str, login_disconnect: i32) -> Release {
    Release { protocol, version, name: name.as_bytes().to_vec(), login_disconnect }
}

fn releases() -> Vec<Release> {
    vec![
        release(PROTOCOL_1_12_2, version::V_1_12_2, "1.12.2", 0),
        release(PROTOCOL_1_16_2, version::V_1_16_2, "1.16.2", 0),
        release(PROTOCOL_1_20_3, version::V_1_20_3, "1.20.3", 0),
        release(PROTOCOL_26_2, version::V_26_2, "26.2", 0),
        release(PROTOCOL_26_3, version::V_26_3, "26.3", 0),
        release(1, version::V_1_8, "1.8", -1),
    ]
}

fn plugin() -> MultiVersionPlugin {
    MultiVersionPlugin { connections: Connections::new(), releases: releases() }
}

fn event(direction: PacketDirection, protocol_version: i32, connection_state: u8) -> ProtocolPacketEvent {
    ProtocolPacketEvent {
        connection_id: 1,
        player: None,
        direction,
        packet_id: 7,
        raw_payload: vec![1, 2, 3],
        protocol_version,
        connection_state,
        translated: false,
        clientbound_packets: Vec::new(),
        serverbound_packets: Vec::new(),
        cancelled: false,
    }
}

fn done(step: Step) -> ProtocolPacketEvent {
    match step {
        Step::Done(event) => event,
        Step::Translate(..) => panic!("nothing is left to translate"),
    }
}

fn pending(step: Step) -> (ProtocolPacketEvent, u32) {
    match step {
        Step::Translate(event, version) => (event, version),
        Step::Done(_) => panic!("the packet is to be translated"),
    }
}

#[test]
fn the_floor_is_1_16_2() {
    assert_eq!(LOWEST_SUPPORTED, version::V_1_16_2);
    assert!(is_version_supported(version::V_1_16_2));
    assert!(is_version_supported(version::V_1_20));
    assert!(!is_version_supported(version::V_1_16_1));
    assert!(!is_version_supported(0));
}

#[test]
fn protocol_context_identifies_the_client_version() {
    assert_eq!(event_version(&releases(), PROTOCOL_26_2), Some(version::V_26_2));
    assert_eq!(event_version(&releases(), -1), None, "Bedrock sentinel is ignored");
}

#[test]
fn translated_legacy_click_keeps_its_clientbound_confirmation_reply() {
    const CONTAINER_CLICK: PacketIds = PacketIds { server: 17, client: 9 };
    const WINDOW_CONFIRMATION: PacketIds = PacketIds { server: -1, client: 17 };
    let mut plugin = plugin();
    let mut click = event(PacketDirection::Serverbound, PROTOCOL_1_16_2, 5);
    click.connection_id = 0x504a_4d01;
    click.packet_id = CONTAINER_CLICK.client;
    click.raw_payload = vec![1, 0, 36, 0, 0, 7, 0, 0];
    let (click, version) = pending(plugin.translate_protocol_packet(click, 0));
    assert_eq!(version, version::V_1_16_2);
    let translated = plugin.complete(
        click,
        Some(Translated {
            ids: CONTAINER_CLICK,
            payload: vec![1, 0],
            cancelled: false,
            serverbound: vec![TranslatedPacket { ids: WINDOW_CONFIRMATION, payload: vec![5] }],
            clientbound: vec![TranslatedPacket { ids: WINDOW_CONFIRMATION, payload: vec![1, 0, 7, 1] }],
        }),
    );
    assert!(!translated.cancelled, "the recognized click remains usable");
    assert!(translated.translated);
    assert_eq!(translated.packet_id, CONTAINER_CLICK.server);
    assert_eq!(translated.raw_payload, [1, 0]);
    assert!(translated.serverbound_packets.is_empty(), "the server has no number for it");
    assert_eq!(translated.clientbound_packets.len(), 1);
    assert_eq!(translated.clientbound_packets[0].packet_id, WINDOW_CONFIRMATION.client);
    assert_eq!(translated.clientbound_packets[0].raw_payload.as_slice(), &[1, 0, 7, 1]);
}

#[test]
fn translated_registry_flush_keeps_its_following_tags_packet() {
    const REGISTRY_DATA: PacketIds = PacketIds { server: 7, client: 5 };
    const UPDATE_TAGS: PacketIds = PacketIds { server: 13, client: 8 };
    let mut plugin = plugin();
    for _ in 0..2 {
        let (packet, _) = pending(plugin.translate_protocol_packet(
            event(PacketDirection::Clientbound, PROTOCOL_1_20_3, 4),
            0,
        ));
        let collected = plugin.complete(
            packet,
            Some(Translated {
                ids: REGISTRY_DATA,
                payload: Vec::new(),
                cancelled: true,
                serverbound: Vec::new(),
                clientbound: Vec::new(),
            }),
        );
        assert!(collected.cancelled, "per-registry packets are held for bundling");
    }
    let tags = vec![0];
    let mut packet = event(PacketDirection::Clientbound, PROTOCOL_1_20_3, 4);
    packet.packet_id = UPDATE_TAGS.server;
    packet.raw_payload = tags.clone();
    let (packet, _) = pending(plugin.translate_protocol_packet(packet, 0));
    let translated = plugin.complete(
        packet,
        Some(Translated {
            ids: REGISTRY_DATA,
            payload: vec![10, 0],
            cancelled: false,
            serverbound: Vec::new(),
            clientbound: vec![TranslatedPacket { ids: UPDATE_TAGS, payload: tags.clone() }],
        }),
    );
    assert!(!translated.cancelled);
    assert_eq!(translated.packet_id, REGISTRY_DATA.client);
    assert_eq!(translated.clientbound_packets.len(), 1);
    assert_eq!(translated.clientbound_packets[0].packet_id, UPDATE_TAGS.client);
    assert_eq!(translated.clientbound_packets[0].raw_payload, tags);
}

#[test]
fn the_servers_own_release_and_unknown_ones_pass() {
    let mut plugin = plugin();
    for protocol in [PROTOCOL_26_3, -1, 12345] {
        let packet = done(plugin.translate_protocol_packet(event(PacketDirection::Clientbound, protocol, 5), 0));
        assert!(!packet.translated && !packet.cancelled);
        assert_eq!(packet.raw_payload, [1, 2, 3]);
    }
}

#[test]
fn an_unsupported_login_is_told_why() {
    let mut plugin = plugin();
    let packet = done(plugin.translate_protocol_packet(
        event(PacketDirection::Clientbound, PROTOCOL_1_12_2, 2),
        0,
    ));
    assert!(packet.translated && !packet.cancelled);
    assert_eq!(packet.packet_id, 0);
    let reason = concat_reason("This server supports Minecraft 1.16.2 to 26.2. You are on 1.12.2.");
    assert_eq!(packet.raw_payload[0] as usize, reason.len());
    assert_eq!(&packet.raw_payload[1..], reason.as_bytes());
}

fn concat_reason(text: &str) -> String {
    format!("{{\"color\":\"red\",\"text\":\"{text}\"}}")
}

#[test]
fn unsupported_clients_get_nothing_else() {
    let mut plugin = plugin();
    let play = done(plugin.translate_protocol_packet(
        event(PacketDirection::Clientbound, PROTOCOL_1_12_2, 5),
        0,
    ));
    assert!(play.cancelled);
    let status = done(plugin.translate_protocol_packet(
        event(PacketDirection::Clientbound, PROTOCOL_1_12_2, 1),
        0,
    ));
    assert!(!status.cancelled);
    assert_eq!(status.raw_payload, [1, 2, 3]);
    let no_disconnect = done(plugin.translate_protocol_packet(event(PacketDirection::Clientbound, 1, 2), 0));
    assert!(no_disconnect.cancelled);
    let login_start = done(plugin.translate_protocol_packet(
        event(PacketDirection::Serverbound, PROTOCOL_1_12_2, 2),
        0,
    ));
    assert!(!login_start.cancelled && !login_start.translated, "the server sees who wants to join");
}

#[test]
fn early_states_need_no_translation() {
    let mut plugin = plugin();
    let handshake = done(plugin.translate_protocol_packet(
        event(PacketDirection::Clientbound, PROTOCOL_1_20_3, 0),
        0,
    ));
    assert!(handshake.translated);
    let status = done(plugin.translate_protocol_packet(
        event(PacketDirection::Serverbound, PROTOCOL_1_20_3, 1),
        0,
    ));
    assert!(status.translated);
}

#[test]
fn a_player_is_bound_to_the_connection_once() {
    let mut plugin = plugin();
    let mut packet = event(PacketDirection::Serverbound, PROTOCOL_1_20_3, 5);
    packet.player = Some(44);
    plugin.translate_protocol_packet(packet, 5);
    assert!(is_bound(&plugin.connections, 1));
    assert_eq!(plugin.connections.entries.len(), 1);
}

#[test]
fn a_status_answer_releases_the_connection() {
    let mut plugin = plugin();
    with_connection(&mut plugin.connections, 1, version::V_1_20_3, 0);
    let (packet, _) = pending(plugin.translate_protocol_packet(
        event(PacketDirection::Clientbound, PROTOCOL_1_20_3, 1),
        0,
    ));
    let answer = plugin.complete(packet, None);
    assert!(answer.cancelled);
    assert!(plugin.connections.entries.is_empty());
}

#[test]
fn packets_that_the_client_has_no_number_for_are_cancelled() {
    let translated = || Translated {
        ids: PacketIds { server: 4, client: -1 },
        payload: vec![9],
        cancelled: false,
        serverbound: Vec::new(),
        clientbound: Vec::new(),
    };
    let packet = finish_clientbound(event(PacketDirection::Clientbound, PROTOCOL_1_20_3, 5), Some(translated()));
    assert!(packet.cancelled && !packet.translated);
    assert_eq!(packet.raw_payload, [1, 2, 3]);
    let packet = finish_serverbound(event(PacketDirection::Serverbound, PROTOCOL_1_20_3, 5), Some(translated()));
    assert!(!packet.cancelled);
    assert_eq!(packet.packet_id, 4);
    let packet = finish_serverbound(event(PacketDirection::Serverbound, PROTOCOL_1_20_3, 5), None);
    assert!(packet.cancelled);
}
