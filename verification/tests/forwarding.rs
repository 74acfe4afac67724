use reth_sentry_node::config::{NetworkConfigFile, Options, SentryConfig};
use reth_sentry_node::dedup::{
    default_cache_size, default_log_interval, DedupConfig, DedupStats, TxDedup,
};
use reth_sentry_node::forwarder::{
    classify_response, default_buffer_size, default_max_concurrent, BackendConfig, Delivery,
    ForwardableTx, JsonRpcError, TxForwarder, TxStep,
};
use reth_sentry_node::validator::{
    validate_stateless, Amount, StatelessValidatorConfig, TxFields, TxRejection,
};

fn hash(n: u8) -> [u8; 32] {
    [n; 32]
}

fn dedup(cache_size: usize, log_interval: u64) -> TxDedup {
    TxDedup::new(DedupConfig { cache_size, log_interval })
}

#[test]
fn duplicate_is_recognised() {
    let mut d = dedup(4, 0);
    assert!(d.check_and_insert(hash(1)));
    assert!(!d.check_and_insert(hash(1)));
    assert!(d.check_and_insert(hash(2)));
}

#[test]
fn hash_is_forgotten_after_as_many_others_as_fit() {
    let mut d = dedup(2, 0);
    assert!(d.check_and_insert(hash(1)));
    assert!(d.check_and_insert(hash(2)));
    // A duplicate makes the hash the latest one again.
    assert!(!d.check_and_insert(hash(1)));
    assert!(d.check_and_insert(hash(3)));
    assert!(!d.check_and_insert(hash(1)));
    assert!(d.check_and_insert(hash(2)));
}

#[test]
fn statistics_are_due_at_each_interval() {
    let mut d = dedup(8, 3);
    d.check_and_insert(hash(1));
    assert_eq!(d.stats_due(), None);
    d.check_and_insert(hash(1));
    assert_eq!(d.stats_due(), None);
    d.check_and_insert(hash(2));
    assert_eq!(d.stats_due(), Some(DedupStats { total: 3, duplicates: 1, unique: 2 }));
    d.check_and_insert(hash(2));
    assert_eq!(d.stats_due(), None);
    let mut never = dedup(8, 0);
    never.check_and_insert(hash(1));
    assert_eq!(never.stats_due(), None);
}

#[test]
fn statistics_count_the_results() {
    let mut d = dedup(2, 1);
    let mut unique = 0;
    let mut duplicates = 0;
    for (i, n) in [1, 1, 2, 3, 1, 3, 3, 2].into_iter().enumerate() {
        if d.check_and_insert(hash(n)) {
            unique += 1;
        } else {
            duplicates += 1;
        }
        let total = i as u64 + 1;
        assert_eq!(d.stats_due(), Some(DedupStats { total, duplicates, unique }));
    }
    assert_eq!((unique, duplicates), (5, 3));
}

#[test]
fn defaults_of_the_backends() {
    assert_eq!(default_cache_size(), 100_000);
    assert_eq!(default_log_interval(), 1000);
    assert_eq!(default_max_concurrent(), 64);
    assert_eq!(default_buffer_size(), 4096);
    let config = BackendConfig::default();
    assert_eq!(config.endpoints, vec!["http://localhost:8545".to_string()]);
    assert_eq!(config.max_concurrent, 64);
    assert_eq!(config.buffer_size, 4096);
    assert_eq!(config.dedup.cache_size, 100_000);
    assert_eq!(config.dedup.log_interval, 1000);
}

fn forwarder(endpoints: &[&str], streaming: bool) -> TxForwarder {
    TxForwarder::new(
        BackendConfig {
            endpoints: endpoints.iter().map(|e| e.to_string()).collect(),
            ..Default::default()
        },
        streaming,
    )
}

fn tx(n: u8) -> ForwardableTx {
    ForwardableTx { hash: hash(n), raw_tx: vec![n, 0xff] }
}

#[test]
fn new_transaction_is_delivered_once() {
    let mut f = forwarder(&["http://a"], true);
    match f.on_transaction(&tx(1)) {
        TxStep::Deliver { notification, send } => {
            let n = notification.unwrap();
            assert_eq!(n.hash, hash(1));
            assert_eq!(n.raw_tx, vec![1, 0xff]);
            assert!(send);
        }
        other => panic!("unexpected step {:?}", other),
    }
    assert!(matches!(f.on_transaction(&tx(1)), TxStep::Duplicate));
    assert_eq!(f.endpoints(), &vec!["http://a".to_string()]);
}

#[test]
fn nothing_is_streamed_or_sent_without_receivers() {
    let mut f = forwarder(&[], false);
    assert!(matches!(
        f.on_transaction(&tx(1)),
        TxStep::Deliver { notification: None, send: false }
    ));
    assert_eq!(f.stats_due(), None);
}

#[test]
fn calls_are_numbered() {
    let mut f = forwarder(&["http://a"], false);
    assert!(f.has_next_id());
    let call = f.next_request(&vec![0x02, 0xab]);
    assert_eq!(call.jsonrpc, "2.0");
    assert_eq!(call.method, "eth_sendRawTransaction");
    assert_eq!(call.params, vec!["0x02ab".to_string()]);
    assert_eq!(call.id, 1);
    assert_eq!(f.next_request(&vec![]).params, vec!["0x".to_string()]);
    assert_eq!(f.next_request(&vec![]).id, 3);
}

fn refusal(message: &str) -> Option<JsonRpcError> {
    Some(JsonRpcError { code: -32000, message: message.to_string() })
}

#[test]
fn answers_of_backends() {
    assert!(matches!(classify_response(None), Delivery::Accepted));
    assert!(matches!(classify_response(refusal("tx already known!")), Delivery::AlreadyKnown));
    assert!(matches!(classify_response(refusal("already in pool")), Delivery::AlreadyKnown));
    match classify_response(refusal("Already Known")) {
        Delivery::Rejected(e) => {
            assert_eq!(e.code, -32000);
            assert_eq!(e.message, "Already Known");
        }
        other => panic!("unexpected delivery {:?}", other),
    }
}

#[test]
fn options_make_a_configuration() {
    let config = SentryConfig::from_options(Options {
        port: 30304,
        max_peers: 7,
        chain_id: 5,
        backends: vec!["http://b".to_string()],
        ws_port: 9000,
        no_ws: true,
    });
    assert_eq!(config.network.p2p_port, 30304);
    assert_eq!(config.network.discovery_port, 30304);
    assert_eq!(config.network.network_config().max_peers, 7);
    assert_eq!(config.network.network_config().block_cache_size, 256);
    assert_eq!(config.network.chain_id, 5);
    assert_eq!(config.backend.endpoints, vec!["http://b".to_string()]);
    assert_eq!(config.backend.buffer_size, 4096);
    assert!(!config.websocket.enabled);
    assert_eq!(config.websocket.port, 9000);
    assert_eq!(config.websocket.addr, "0.0.0.0");
    assert_eq!(NetworkConfigFile::default().max_peers, 50);
}

fn fields() -> TxFields {
    TxFields {
        chain_id: Some(1),
        nonce: 0,
        gas_limit: 21_000,
        max_fee_per_gas: 10,
        max_priority_fee_per_gas: Some(10),
        value: Amount { high: 0, low: 1 },
        is_create: false,
    }
}

#[test]
fn good_transactions_pass() {
    let config = StatelessValidatorConfig::default();
    assert_eq!(validate_stateless(&config, &fields()), Ok(()));
    let legacy = TxFields {
        chain_id: None,
        max_priority_fee_per_gas: None,
        gas_limit: 30_000_000,
        nonce: u64::MAX - 1,
        ..fields()
    };
    assert_eq!(validate_stateless(&config, &legacy), Ok(()));
}

#[test]
fn bad_transactions_are_refused() {
    let config = StatelessValidatorConfig::default();
    let refused = |tx: TxFields| validate_stateless(&config, &tx).unwrap_err();
    assert_eq!(refused(TxFields { chain_id: Some(2), ..fields() }), TxRejection::ChainId);
    assert_eq!(refused(TxFields { gas_limit: 20_999, ..fields() }), TxRejection::GasLimit);
    assert_eq!(refused(TxFields { gas_limit: 30_000_001, ..fields() }), TxRejection::GasLimit);
    assert_eq!(
        refused(TxFields { max_priority_fee_per_gas: Some(11), ..fields() }),
        TxRejection::FeeOrdering
    );
    assert_eq!(
        refused(TxFields {
            max_fee_per_gas: 0,
            max_priority_fee_per_gas: Some(0),
            ..fields()
        }),
        TxRejection::GasPrice
    );
    assert_eq!(refused(TxFields { nonce: u64::MAX, ..fields() }), TxRejection::Nonce);
    assert_eq!(refused(TxFields { is_create: true, ..fields() }), TxRejection::ContractCreation);
}

#[test]
fn cost_may_reach_but_not_exceed_the_largest_amount() {
    let config = StatelessValidatorConfig::default();
    let at = |low: u128| TxFields {
        value: Amount { high: u128::MAX, low },
        ..fields()
    };
    assert_eq!(validate_stateless(&config, &at(u128::MAX - 210_000)), Ok(()));
    assert_eq!(
        validate_stateless(&config, &at(u128::MAX - 209_999)),
        Err(TxRejection::CostOverflow)
    );
    let large = |high: u128| TxFields {
        max_fee_per_gas: u128::MAX,
        value: Amount { high, low: 0 },
        ..fields()
    };
    assert_eq!(validate_stateless(&config, &large(u128::MAX - 20_999)), Ok(()));
    assert_eq!(
        validate_stateless(&config, &large(u128::MAX - 20_998)),
        Err(TxRejection::CostOverflow)
    );
}
