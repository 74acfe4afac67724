use alloy_consensus::Header as ConsensusHeader;
use reth_sentry_node::block::{Body, Header};
use reth_sentry_node::block_import::NewBlockData;
use reth_sentry_node::network::{
    announced_head, estimated_number, initial_head, SentryNetworkConfig, TOTAL_DIFFICULTY,
};
use reth_sentry_node::node_key::{parse_node_key, render_node_key, NodeKeyError};
use reth_sentry_node::text::to_prefixed_hex;
use reth_sentry_node::ws_server::{
    confirmation, default_mode, default_ws_addr, default_ws_capacity, default_ws_enabled,
    default_ws_port, notification_message, on_stream_event, subscription_mode, wants_raw,
    ClientAction, FirstEvent, PendingTxNotification, StreamEvent, SubscribeRequest, WsConfig,
};

fn notification() -> PendingTxNotification {
    PendingTxNotification { hash: [0xab; 32], raw_tx: vec![0xf8, 0x6c] }
}

#[test]
fn messages_of_both_modes() {
    let hash = format!("0x{}", "ab".repeat(32));
    assert_eq!(
        notification_message(&notification(), true),
        format!("{{\"hash\":\"{}\",\"raw_tx\":\"0xf86c\"}}", hash)
    );
    assert_eq!(
        notification_message(&notification().clone(), false),
        format!("{{\"hash\":\"{}\"}}", hash)
    );
}

#[test]
fn confirmation_escapes_the_mode() {
    assert_eq!(
        confirmation(&"raw".to_string()),
        "{\"mode\":\"raw\",\"status\":\"subscribed\"}"
    );
    assert_eq!(
        confirmation(&"a\"\\\n\u{1}\u{e9}".to_string()),
        "{\"mode\":\"a\\\"\\\\\\n\\u0001\u{e9}\",\"status\":\"subscribed\"}"
    );
}

#[test]
fn first_event_gives_the_mode() {
    let text = |subscribe: &str, mode: &str| {
        FirstEvent::Text(Some(SubscribeRequest {
            subscribe: subscribe.to_string(),
            mode: mode.to_string(),
        }))
    };
    assert_eq!(subscription_mode(text("pending_transactions", "hash")), Some("hash".to_string()));
    assert_eq!(subscription_mode(text("something", "full")), Some("full".to_string()));
    assert_eq!(subscription_mode(FirstEvent::Text(None)), Some("raw".to_string()));
    assert_eq!(subscription_mode(FirstEvent::NonText), Some("raw".to_string()));
    assert_eq!(subscription_mode(FirstEvent::Timeout), Some("raw".to_string()));
    assert_eq!(subscription_mode(FirstEvent::Failed), None);
    assert_eq!(subscription_mode(FirstEvent::Closed), None);
}

#[test]
fn known_subscription() {
    let request = |s: &str| SubscribeRequest { subscribe: s.to_string(), mode: default_mode() };
    assert!(request("pending_transactions").is_known());
    assert!(!request("blocks").is_known());
}

#[test]
fn raw_modes() {
    assert!(wants_raw(&"raw".to_string()));
    assert!(wants_raw(&"full".to_string()));
    assert!(!wants_raw(&"hash".to_string()));
    assert!(!wants_raw(&"RAW".to_string()));
}

#[test]
fn stream_events_of_a_client() {
    match on_stream_event(false, &StreamEvent::Notification(notification())) {
        ClientAction::Send(message) => {
            assert_eq!(message, notification_message(&notification(), false))
        }
        other => panic!("unexpected action {:?}", other),
    }
    assert!(matches!(on_stream_event(true, &StreamEvent::Lagged(3)), ClientAction::Wait));
    assert!(matches!(on_stream_event(true, &StreamEvent::Closed), ClientAction::Disconnect));
    assert!(matches!(on_stream_event(true, &StreamEvent::SendFailed), ClientAction::Disconnect));
}

#[test]
fn websocket_defaults() {
    assert!(default_ws_enabled());
    assert_eq!(default_ws_addr(), "0.0.0.0");
    assert_eq!(default_ws_port(), 8546);
    assert_eq!(default_ws_capacity(), 4096);
    assert_eq!(default_mode(), "raw");
    let config = WsConfig::default();
    assert_eq!(config.bind_addr(), "0.0.0.0:8546");
    assert_eq!(WsConfig { port: 0, ..config }.bind_addr(), "0.0.0.0:0");
}

#[test]
fn prefixed_hexadecimal() {
    assert_eq!(to_prefixed_hex(&[0x00, 0x1f, 0xa0]), "0x001fa0");
}

#[test]
fn node_key_is_read_back() {
    let mut key = [0u8; 32];
    key[31] = 1;
    key[0] = 0x7f;
    let text = render_node_key(&key);
    assert_eq!(text.len(), 64);
    assert_eq!(parse_node_key(&text).unwrap(), key);
    assert_eq!(parse_node_key(&format!(" \t0x{}\u{3000}\n", text)).unwrap(), key);
    assert_eq!(parse_node_key(&format!("0X{}", text.to_uppercase())).unwrap(), key);
}

#[test]
fn node_key_that_is_no_text_is_refused() {
    assert!(matches!(parse_node_key("abc"), Err(NodeKeyError::Hex(_))));
    assert!(matches!(parse_node_key("zz"), Err(NodeKeyError::Hex(_))));
    assert!(matches!(parse_node_key("\u{e9}"), Err(NodeKeyError::Hex(_))));
}

#[test]
fn node_key_that_is_no_secret_is_refused() {
    let order = "fffffffffffffffffffffffffffffffebaaedce6af48a03bbfd25e8cd0364141";
    let below = "fffffffffffffffffffffffffffffffebaaedce6af48a03bbfd25e8cd0364140";
    assert!(matches!(parse_node_key(order), Err(NodeKeyError::Key(_))));
    assert!(parse_node_key(below).is_ok());
    assert!(matches!(parse_node_key(&"00".repeat(32)), Err(NodeKeyError::Key(_))));
    assert!(matches!(parse_node_key(&"01".repeat(31)), Err(NodeKeyError::Key(_))));
    assert!(matches!(parse_node_key(""), Err(NodeKeyError::Key(_))));
}

fn header(number: u64, timestamp: u64) -> Header {
    let header = ConsensusHeader { number, timestamp, ..Default::default() };
    Header::from_rlp(&alloy_rlp::encode(&header)).unwrap()
}

#[test]
fn head_is_the_latest_cached_block() {
    let head = initial_head(&Some(([3; 32], header(42, 99))), 0, [9; 32]);
    assert_eq!(head.number, 42);
    assert_eq!(head.hash, [3; 32]);
    assert_eq!(head.timestamp, 99);
    assert_eq!(head.difficulty, 0);
    assert_eq!(head.total_difficulty, TOTAL_DIFFICULTY);
}

#[test]
fn head_is_estimated_without_a_cached_block() {
    let now = 1_681_338_455 + 12 * 100 + 11;
    let head = initial_head(&None, now, [9; 32]);
    assert_eq!(head.number, 17_034_970);
    assert_eq!(head.hash, [9; 32]);
    assert_eq!(head.timestamp, now);
    assert_eq!(estimated_number(1_681_338_455), 17_034_870);
    assert_eq!(estimated_number(now + 12), 17_034_971);
}

#[test]
fn announced_block_becomes_the_head() {
    let body = alloy_consensus::BlockBody::<
        alloy_consensus::EthereumTxEnvelope<alloy_consensus::TxEip4844>,
    >::default();
    let data = NewBlockData {
        hash: [4; 32],
        header: header(7, 8),
        body: Body::from_rlp(&alloy_rlp::encode(&body)).unwrap(),
    };
    let head = announced_head(&data);
    assert_eq!((head.number, head.hash, head.timestamp), (7, [4; 32], 8));
    assert_eq!(head.total_difficulty, 58_750_000_000_000_000_000_000);
}

#[test]
fn network_defaults() {
    let config = SentryNetworkConfig::default();
    assert_eq!(config.chain_id, 1);
    assert_eq!(config.max_peers, 50);
    assert_eq!(config.p2p_port, 30303);
    assert_eq!(config.discovery_port, 30303);
    assert_eq!(config.block_cache_size, 256);
    assert_eq!(config.peers_each_way(), 25);
    assert_eq!(SentryNetworkConfig { max_peers: 7, ..config }.peers_each_way(), 3);
}
