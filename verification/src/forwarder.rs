//! Forwarding of transactions to backends.
//!
//! A transaction that is new is streamed to the WebSocket subscribers and sent
//! to each HTTP endpoint as a JSON-RPC call of `eth_sendRawTransaction`.
use vstd::prelude::*;
use vstd::string::*;

use crate::dedup::{DedupConfig, DedupStats, DedupView, TxDedup};
use crate::lru_cache;
use crate::recency;
use crate::rlp::B256;
use crate::text;
use crate::ws_server::PendingTxNotification;

verus! {

/// A validated transaction.
#[derive(Debug)]
pub struct ForwardableTx {
    /// Transaction hash.
    pub hash: B256,
    /// The signed transaction, RLP-encoded.
    pub raw_tx: Vec<u8>,
}

/// Configuration of the backends.
#[derive(Debug, Clone)]
pub struct BackendConfig {
    /// URLs of the JSON-RPC endpoints.
    pub endpoints: Vec<String>,
    /// How many transactions are sent at the same time.
    pub max_concurrent: usize,
    /// How many transactions may wait to be forwarded.
    pub buffer_size: usize,
    /// Configuration of the deduplication.
    pub dedup: DedupConfig,
}

/// How many transactions are sent at the same time unless configured otherwise.
pub fn default_max_concurrent() -> (r: usize)
    ensures
        r == 64,
{
    64
}

/// How many transactions may wait unless configured otherwise.
pub fn default_buffer_size() -> (r: usize)
    ensures
        r == 4096,
{
    4096
}

impl Default for BackendConfig {
    fn default() -> (r: Self)
        ensures
            r.endpoints.len() == 1,
            r.endpoints[0]@ == "http://localhost:8545"@,
            r.max_concurrent == 64,
            r.buffer_size == 4096,
            r.dedup.cache_size == 100_000,
            r.dedup.log_interval == 1000,
    {
        let mut endpoints: Vec<String> = Vec::new();
        endpoints.push(String::from_str("http://localhost:8545"));
        BackendConfig {
            endpoints,
            max_concurrent: default_max_concurrent(),
            buffer_size: default_buffer_size(),
            dedup: DedupConfig::default(),
        }
    }
}

/// A JSON-RPC call.
#[derive(Debug)]
pub struct JsonRpcRequest {
    pub jsonrpc: String,
    pub method: String,
    pub params: Vec<String>,
    pub id: u64,
}

/// The error that a JSON-RPC call was answered with.
#[derive(Debug)]
pub struct JsonRpcError {
    pub code: i64,
    pub message: String,
}

/// What became of a transaction that was sent to a backend.
#[derive(Debug)]
pub enum Delivery {
    /// The backend took the transaction.
    Accepted,
    /// The backend had the transaction already.
    AlreadyKnown,
    /// The backend refused the transaction.
    Rejected(JsonRpcError),
}

/// What the answer of a backend means, given the error in it.
pub fn classify_response(error: Option<JsonRpcError>) -> (r: Delivery)
    ensures
        match error {
            None => r is Accepted,
            Some(e) => if text::occurs(e.message@, "already known"@) || text::occurs(
                e.message@,
                "already in pool"@,
            ) {
                r is AlreadyKnown
            } else {
                r == Delivery::Rejected(e)
            },
        },
{
    match error {
        None => Delivery::Accepted,
        Some(e) => {
            if text::contains(e.message.as_str(), "already known") || text::contains(
                e.message.as_str(),
                "already in pool",
            ) {
                Delivery::AlreadyKnown
            } else {
                Delivery::Rejected(e)
            }
        },
    }
}

/// What to do with a transaction.
#[derive(Debug)]
pub enum TxStep {
    /// Nothing: it was handled before.
    Duplicate,
    /// Stream the notification, if there is one, and then send the transaction
    /// to the endpoints, if `send` says so.
    Deliver { notification: Option<PendingTxNotification>, send: bool },
}

/// Decides what is done with each transaction.
pub struct TxForwarder {
    endpoints: Vec<String>,
    streaming: bool,
    dedup: TxDedup,
    id_counter: u64,
}

/// The mathematical value of a [`TxForwarder`].
pub struct ForwarderView {
    pub endpoints: Seq<String>,
    /// Whether there are WebSocket subscribers to stream to.
    pub streaming: bool,
    pub dedup: DedupView,
    /// The identifier of the last call.
    pub id_counter: u64,
}

impl View for TxForwarder {
    type V = ForwarderView;

    closed spec fn view(&self) -> ForwarderView {
        ForwarderView {
            endpoints: self.endpoints@,
            streaming: self.streaming,
            dedup: self.dedup@,
            id_counter: self.id_counter,
        }
    }
}

impl TxForwarder {
    /// Makes a forwarder that has seen no transaction.
    pub fn new(config: BackendConfig, streaming: bool) -> (r: Self)
        requires
            0 < config.dedup.cache_size <= lru_cache::MAX_CAPACITY,
        ensures
            r@.endpoints == config.endpoints@,
            r@.streaming == streaming,
            r@.id_counter == 0,
            r@.dedup.limit == config.dedup.cache_size,
            r@.dedup.log_interval == config.dedup.log_interval,
            r@.dedup.seen.len() == 0,
            r@.dedup == DedupView::fresh(
                config.dedup.cache_size as nat,
                config.dedup.log_interval,
            ),
            r@.dedup.valid(),
    {
        TxForwarder {
            endpoints: config.endpoints,
            streaming,
            dedup: TxDedup::new(config.dedup),
            id_counter: 0,
        }
    }

    /// The endpoints that transactions are sent to.
    pub fn endpoints(&self) -> (r: &Vec<String>)
        ensures
            r@ == self@.endpoints,
    {
        &self.endpoints
    }

    /// What to do with a transaction.
    pub fn on_transaction(&mut self, tx: &ForwardableTx) -> (r: TxStep)
        requires
            old(self)@.dedup.valid(),
        ensures
            final(self)@.dedup.valid(),
            final(self)@.dedup == old(self)@.dedup.checked(tx.hash),
            recency::holds(final(self)@.dedup.seen, tx.hash),
            final(self)@.endpoints == old(self)@.endpoints,
            final(self)@.streaming == old(self)@.streaming,
            final(self)@.id_counter == old(self)@.id_counter,
            match r {
                TxStep::Duplicate => recency::holds(old(self)@.dedup.seen, tx.hash),
                TxStep::Deliver { notification, send } => {
                    &&& !recency::holds(old(self)@.dedup.seen, tx.hash)
                    &&& send == (old(self)@.endpoints.len() > 0)
                    &&& match notification {
                        Some(n) => old(self)@.streaming && n.hash == tx.hash && n.raw_tx@
                            == tx.raw_tx@,
                        None => !old(self)@.streaming,
                    }
                },
            },
    {
        if !self.dedup.check_and_insert(tx.hash) {
            return TxStep::Duplicate;
        }
        let notification = if self.streaming {
            let raw_tx = tx.raw_tx.clone();
            assert(raw_tx@ =~= tx.raw_tx@);
            Some(PendingTxNotification { hash: tx.hash, raw_tx })
        } else {
            None
        };
        TxStep::Deliver { notification, send: self.endpoints.len() > 0 }
    }

    /// The statistics of the deduplication, where they are due.
    pub fn stats_due(&self) -> (r: Option<DedupStats>)
        ensures
            r == self@.dedup.stats_due(),
    {
        self.dedup.stats_due()
    }

    /// Whether there is an identifier left for another call.
    pub fn has_next_id(&self) -> (r: bool)
        ensures
            r == (self@.id_counter < u64::MAX),
    {
        self.id_counter < u64::MAX
    }

    /// The call that hands a transaction to a backend, with an identifier of its
    /// own.
    pub fn next_request(&mut self, raw_tx: &Vec<u8>) -> (r: JsonRpcRequest)
        requires
            old(self)@.id_counter < u64::MAX,
        ensures
            final(self)@ == (ForwarderView {
                id_counter: (old(self)@.id_counter + 1) as u64,
                ..old(self)@
            }),
            r.id == old(self)@.id_counter + 1,
            r.jsonrpc@ == "2.0"@,
            r.method@ == "eth_sendRawTransaction"@,
            r.params.len() == 1,
            r.params[0]@ == "0x"@ + text::hex(raw_tx@),
    {
        self.id_counter = self.id_counter + 1;
        let mut params: Vec<String> = Vec::new();
        params.push(text::to_prefixed_hex(raw_tx.as_slice()));
        JsonRpcRequest {
            jsonrpc: String::from_str("2.0"),
            method: String::from_str("eth_sendRawTransaction"),
            params,
            id: self.id_counter,
        }
    }
}

/// A transaction that was looked at once is a duplicate when it comes again.
pub proof fn law_second_time_is_duplicate(dedup: DedupView, hash: B256)
    requires
        dedup.valid(),
    ensures
        recency::holds(dedup.checked(hash).seen, hash),
{
    recency::lemma_pushed(dedup.seen, dedup.limit, hash, ());
}

} // verus!
