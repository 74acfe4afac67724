//! Streaming of pending transactions to backends over WebSocket.
//!
//! A backend connects and subscribes with a JSON message such as
//! `{"subscribe": "pending_transactions", "mode": "raw"}`. It then receives a
//! JSON message for each pending transaction:
//! - in mode `hash`: `{"hash":"0x..."}`
//! - in mode `raw`: `{"hash":"0x...","raw_tx":"0x..."}`
use vstd::prelude::*;
use vstd::string::*;

use crate::rlp::B256;
use crate::text;

verus! {

/// A pending transaction that is streamed to the subscribers.
#[derive(Debug)]
pub struct PendingTxNotification {
    /// Transaction hash.
    pub hash: B256,
    /// The signed transaction, RLP-encoded.
    pub raw_tx: Vec<u8>,
}

impl Clone for PendingTxNotification {
    fn clone(&self) -> (r: Self)
        ensures
            r.hash == self.hash,
            r.raw_tx@ == self.raw_tx@,
    {
        let raw_tx = self.raw_tx.clone();
        assert(raw_tx@ =~= self.raw_tx@);
        PendingTxNotification { hash: self.hash, raw_tx }
    }
}

/// What a client subscribes with.
#[derive(Debug)]
pub struct SubscribeRequest {
    pub subscribe: String,
    pub mode: String,
}

/// The mode of a client that asks for none.
pub fn default_mode() -> (r: String)
    ensures
        r@ == "raw"@,
{
    String::from_str("raw")
}

impl SubscribeRequest {
    /// Whether the client asks for the one kind of stream that there is.
    pub fn is_known(&self) -> (r: bool)
        ensures
            r == (self.subscribe@ == "pending_transactions"@),
    {
        self.subscribe == String::from_str("pending_transactions")
    }
}

/// The first thing that happens on a new connection.
#[derive(Debug)]
pub enum FirstEvent {
    /// A text message, as the request in it, if there is one.
    Text(Option<SubscribeRequest>),
    /// A message that is no text.
    NonText,
    /// The connection failed.
    Failed,
    /// The connection was closed.
    Closed,
    /// Nothing came in time.
    Timeout,
}

/// The mode of a client, or `None` where the connection is gone.
///
/// A client that does not subscribe properly gets the default mode, and so does
/// one that stays silent.
pub fn subscription_mode(first: FirstEvent) -> (r: Option<String>)
    ensures
        match first {
            FirstEvent::Text(Some(request)) => r == Some(request.mode),
            FirstEvent::Text(None) | FirstEvent::NonText | FirstEvent::Timeout => r matches Some(
                mode,
            ) && mode@ == "raw"@,
            FirstEvent::Failed | FirstEvent::Closed => r is None,
        },
{
    match first {
        FirstEvent::Text(Some(request)) => Some(request.mode),
        FirstEvent::Text(None) => Some(default_mode()),
        FirstEvent::NonText => Some(default_mode()),
        FirstEvent::Timeout => Some(default_mode()),
        FirstEvent::Failed => None,
        FirstEvent::Closed => None,
    }
}

/// Whether a client in this mode gets whole transactions, and not only hashes.
pub open spec fn raw_mode(mode: Seq<char>) -> bool {
    mode == "raw"@ || mode == "full"@
}

/// Whether a client in this mode gets whole transactions, and not only hashes.
pub fn wants_raw(mode: &String) -> (r: bool)
    ensures
        r == raw_mode(mode@),
        r == (mode@ == "raw"@ || mode@ == "full"@),
{
    *mode == String::from_str("raw") || *mode == String::from_str("full")
}

/// The message that confirms a subscription.
pub open spec fn confirmation_text(mode: Seq<char>) -> Seq<char> {
    "{\"mode\":"@ + text::json_string(mode) + ",\"status\":\"subscribed\"}"@
}

/// The message that confirms a subscription.
pub fn confirmation(mode: &String) -> (r: String)
    ensures
        r@ == confirmation_text(mode@),
{
    let mut r = String::from_str("{\"mode\":");
    r.append(text::to_json(mode.as_str()).as_str());
    r.append(",\"status\":\"subscribed\"}");
    r
}

/// A JSON string that holds bytes in hexadecimal.
pub open spec fn hex_json(bytes: Seq<u8>) -> Seq<char> {
    text::json_string("0x"@ + text::hex(bytes))
}

/// The message for a transaction, with the transaction itself or without it.
pub open spec fn notification_text(hash: B256, raw_tx: Seq<u8>, use_raw: bool) -> Seq<char> {
    if use_raw {
        "{\"hash\":"@ + hex_json(hash@) + ",\"raw_tx\":"@ + hex_json(raw_tx) + "}"@
    } else {
        "{\"hash\":"@ + hex_json(hash@) + "}"@
    }
}

/// The message for a transaction, with the transaction itself or without it.
pub fn notification_message(notification: &PendingTxNotification, use_raw: bool) -> (r: String)
    ensures
        r@ == notification_text(notification.hash, notification.raw_tx@, use_raw),
        use_raw ==> r@ == "{\"hash\":"@ + text::json_string(
            "0x"@ + text::hex(notification.hash@),
        ) + ",\"raw_tx\":"@ + text::json_string("0x"@ + text::hex(notification.raw_tx@)) + "}"@,
        !use_raw ==> r@ == "{\"hash\":"@ + text::json_string(
            "0x"@ + text::hex(notification.hash@),
        ) + "}"@,
{
    let mut r = String::from_str("{\"hash\":");
    let hash = text::to_prefixed_hex(notification.hash.as_slice());
    r.append(text::to_json(hash.as_str()).as_str());
    if use_raw {
        r.append(",\"raw_tx\":");
        let raw_tx = text::to_prefixed_hex(notification.raw_tx.as_slice());
        r.append(text::to_json(raw_tx.as_str()).as_str());
    }
    r.append("}");
    r
}

/// What happens on the stream to a client.
#[derive(Debug)]
pub enum StreamEvent {
    /// A pending transaction.
    Notification(PendingTxNotification),
    /// The client was too slow, and so many transactions were left out.
    Lagged(u64),
    /// The stream has ended.
    Closed,
    /// The last message could not be sent.
    SendFailed,
}

/// What to do for a client.
#[derive(Debug)]
pub enum ClientAction {
    /// Send this message.
    Send(String),
    /// Wait for the next transaction.
    Wait,
    /// End the connection.
    Disconnect,
}

/// What to do for a subscribed client.
pub fn on_stream_event(use_raw: bool, event: &StreamEvent) -> (r: ClientAction)
    ensures
        match *event {
            StreamEvent::Notification(n) => r matches ClientAction::Send(message) && message@
                == notification_text(n.hash, n.raw_tx@, use_raw),
            StreamEvent::Lagged(_) => r is Wait,
            StreamEvent::Closed | StreamEvent::SendFailed => r is Disconnect,
        },
{
    match event {
        StreamEvent::Notification(n) => ClientAction::Send(notification_message(n, use_raw)),
        StreamEvent::Lagged(_) => ClientAction::Wait,
        StreamEvent::Closed => ClientAction::Disconnect,
        StreamEvent::SendFailed => ClientAction::Disconnect,
    }
}

/// Configuration of the WebSocket server.
#[derive(Debug, Clone)]
pub struct WsConfig {
    /// Whether there is a WebSocket server.
    pub enabled: bool,
    /// The address that the server listens on.
    pub addr: String,
    /// The port that the server listens on.
    pub port: u16,
    /// How many transactions a slow client may lag behind.
    pub capacity: usize,
}

/// Whether there is a WebSocket server unless configured otherwise.
pub fn default_ws_enabled() -> (r: bool)
    ensures
        r,
{
    true
}

/// The address that the server listens on unless configured otherwise.
pub fn default_ws_addr() -> (r: String)
    ensures
        r@ == "0.0.0.0"@,
{
    String::from_str("0.0.0.0")
}

/// The port that the server listens on unless configured otherwise.
pub fn default_ws_port() -> (r: u16)
    ensures
        r == 8546,
{
    8546
}

/// How far a client may lag behind unless configured otherwise.
pub fn default_ws_capacity() -> (r: usize)
    ensures
        r == 4096,
{
    4096
}

impl Default for WsConfig {
    fn default() -> (r: Self)
        ensures
            r.enabled,
            r.addr@ == "0.0.0.0"@,
            r.port == 8546,
            r.capacity == 4096,
    {
        WsConfig {
            enabled: default_ws_enabled(),
            addr: default_ws_addr(),
            port: default_ws_port(),
            capacity: default_ws_capacity(),
        }
    }
}

impl WsConfig {
    /// The socket address that the server listens on, as text.
    pub fn bind_addr(&self) -> (r: String)
        ensures
            r@ == self.addr@ + ":"@ + text::decimal(self.port as nat),
    {
        let mut r = self.addr.clone();
        r.append(":");
        r.append(text::to_decimal(self.port).as_str());
        r
    }
}

/// Hexadecimal digits need no escaping in JSON: the messages hold them as they
/// are.
pub proof fn law_hex_is_not_escaped(bytes: Seq<u8>)
    ensures
        hex_json(bytes) == seq!['"'] + ("0x"@ + text::hex(bytes)) + seq!['"'],
{
    let digits = "0x"@ + text::hex(bytes);
    reveal_strlit("0x");
    assert forall|i: int| 0 <= i < digits.len() implies (#[trigger] digits[i]) as int >= 0x20
        && digits[i] != '"' && digits[i] != '\\' by {
        if i >= 2 {
            assert(digits[i] == text::hex(bytes)[i - 2]);
        }
    }
    text::law_plain_text_is_not_escaped(digits);
}

/// In mode `raw` the message for any transaction is a JSON object with two fields:
/// `hash`, which decodes from hexadecimal to the hash of the transaction, and
/// `raw_tx`, which decodes to all bytes of the transaction.
#[verifier::spinoff_prover]
#[verifier::rlimit(30)]
pub proof fn law_raw_message_holds_the_transaction(hash: B256, raw_tx: Seq<u8>)
    ensures
        ({
            let message = notification_text(hash, raw_tx, true);
            let n: int = 2 * raw_tx.len() as int;
            &&& message.len() == 91 + n
            &&& message.take(11) == "{\"hash\":\"0x"@
            &&& text::unhex(message.subrange(11, 75)) == Some(hash@)
            &&& message.subrange(75, 89) == "\",\"raw_tx\":\"0x"@
            &&& text::unhex(message.subrange(89, 89 + n)) == Some(raw_tx)
            &&& message.skip(89 + n) == "\"}"@
        }),
{
    let message = notification_text(hash, raw_tx, true);
    let q = seq!['"'];
    let h = text::hex(hash@);
    let t = text::hex(raw_tx);
    law_hex_is_not_escaped(hash@);
    law_hex_is_not_escaped(raw_tx);
    text::law_hex_is_read_back(hash@);
    text::law_hex_is_read_back(raw_tx);
    lemma_regrouped("{\"hash\":"@, q, "0x"@, h, ",\"raw_tx\":"@, t, "}"@);
    lemma_literals();
    assert(hash@.len() == 32);
    lemma_five_parts(
        "{\"hash\":\"0x"@,
        h,
        "\",\"raw_tx\":\"0x"@,
        t,
        "\"}"@,
    );
}

/// The literal parts of a message in mode `raw`.
proof fn lemma_literals()
    ensures
        "{\"hash\":"@ + seq!['"'] + "0x"@ == "{\"hash\":\"0x"@,
        seq!['"'] + ",\"raw_tx\":"@ + seq!['"'] + "0x"@ == "\",\"raw_tx\":\"0x"@,
        seq!['"'] + "}"@ == "\"}"@,
        "{\"hash\":\"0x"@.len() == 11,
        "\",\"raw_tx\":\"0x"@.len() == 14,
        "\"}"@.len() == 2,
{
    reveal_strlit("0x");
    reveal_strlit("{\"hash\":");
    reveal_strlit(",\"raw_tx\":");
    reveal_strlit("}");
    reveal_strlit("{\"hash\":\"0x");
    reveal_strlit("\",\"raw_tx\":\"0x");
    reveal_strlit("\"}");
    assert("{\"hash\":"@ + seq!['"'] + "0x"@ =~= "{\"hash\":\"0x"@);
    assert(seq!['"'] + ",\"raw_tx\":"@ + seq!['"'] + "0x"@ =~= "\",\"raw_tx\":\"0x"@);
    assert(seq!['"'] + "}"@ =~= "\"}"@);
}

/// The parts of a message, grouped around the digits in it.
proof fn lemma_regrouped(
    a: Seq<char>,
    q: Seq<char>,
    x: Seq<char>,
    h: Seq<char>,
    b: Seq<char>,
    t: Seq<char>,
    e: Seq<char>,
)
    ensures
        a + (q + (x + h) + q) + b + (q + (x + t) + q) + e == (a + q + x) + h + (q + b + q + x) + t
            + (q + e),
{
    assert(a + (q + (x + h) + q) + b + (q + (x + t) + q) + e =~= (a + q + x) + h + (q + b + q + x)
        + t + (q + e));
}

/// Where each of five parts stands.
proof fn lemma_five_parts(a: Seq<char>, b: Seq<char>, c: Seq<char>, d: Seq<char>, e: Seq<char>)
    ensures
        ({
            let all = a + b + c + d + e;
            let i = a.len() as int;
            let j = i + b.len();
            let k = j + c.len();
            let l = k + d.len();
            &&& all.len() == l + e.len()
            &&& all.take(i) == a
            &&& all.subrange(i, j) == b
            &&& all.subrange(j, k) == c
            &&& all.subrange(k, l) == d
            &&& all.skip(l) == e
        }),
{
    let all = a + b + c + d + e;
    let i = a.len() as int;
    let j = i + b.len();
    let k = j + c.len();
    let l = k + d.len();
    assert(all.take(i) =~= a);
    assert(all.subrange(i, j) =~= b);
    assert(all.subrange(j, k) =~= c);
    assert(all.subrange(k, l) =~= d);
    assert(all.skip(l) =~= e);
}

/// In mode `hash` the message for any transaction is a JSON object with one field:
/// `hash`, which decodes from hexadecimal to the hash of the transaction.
pub proof fn law_hash_message_holds_the_hash(hash: B256, raw_tx: Seq<u8>)
    ensures
        ({
            let message = notification_text(hash, raw_tx, false);
            &&& message.len() == 77
            &&& message.take(11) == "{\"hash\":\"0x"@
            &&& text::unhex(message.subrange(11, 75)) == Some(hash@)
            &&& message.skip(75) == "\"}"@
        }),
{
    let message = notification_text(hash, raw_tx, false);
    law_hex_is_not_escaped(hash@);
    text::law_hex_is_read_back(hash@);
    reveal_strlit("0x");
    reveal_strlit("{\"hash\":");
    reveal_strlit("}");
    reveal_strlit("{\"hash\":\"0x");
    reveal_strlit("\"}");
    assert(hash@.len() == 32);
    assert(message.take(11) =~= "{\"hash\":\"0x"@);
    assert(message.subrange(11, 75) =~= text::hex(hash@));
    assert(message.skip(75) =~= "\"}"@);
}

/// Different transactions have different messages: in mode `raw` wherever the hash
/// or a byte differs, in mode `hash` wherever the hash differs.
pub proof fn law_messages_tell_transactions_apart(
    hash: B256,
    raw_tx: Seq<u8>,
    other_hash: B256,
    other_raw_tx: Seq<u8>,
)
    ensures
        notification_text(hash, raw_tx, true) == notification_text(other_hash, other_raw_tx, true)
            ==> hash@ == other_hash@ && raw_tx == other_raw_tx,
        notification_text(hash, raw_tx, false) == notification_text(
            other_hash,
            other_raw_tx,
            false,
        ) ==> hash@ == other_hash@,
        notification_text(hash, raw_tx, true) != notification_text(other_hash, other_raw_tx, false),
{
    law_raw_message_holds_the_transaction(hash, raw_tx);
    law_raw_message_holds_the_transaction(other_hash, other_raw_tx);
    law_hash_message_holds_the_hash(hash, raw_tx);
    law_hash_message_holds_the_hash(other_hash, other_raw_tx);
}

/// The confirmation of any mode is a JSON object with the fields `mode` and
/// `status`: the mode as a JSON string, as it is where nothing in it needs to be
/// escaped, and the word `subscribed`. Different modes have different
/// confirmations.
pub proof fn law_confirmation_names_the_mode(mode: Seq<char>, other: Seq<char>)
    ensures
        ({
            let message = confirmation_text(mode);
            let n: int = text::json_chars(mode).len() as int;
            &&& message.len() == 33 + n
            &&& message.take(9) == "{\"mode\":\""@
            &&& message.subrange(9, 9 + n) == text::json_chars(mode)
            &&& message.skip(9 + n) == "\",\"status\":\"subscribed\"}"@
            &&& (forall|i: int|
                0 <= i < mode.len() ==> (#[trigger] mode[i]) as int >= 0x20 && mode[i] != '"'
                    && mode[i] != '\\') ==> message.subrange(9, 9 + n) == mode
        }),
        confirmation_text(mode) == confirmation_text(other) ==> mode == other,
{
    lemma_confirmation(mode);
    lemma_confirmation(other);
    if forall|i: int|
        0 <= i < mode.len() ==> (#[trigger] mode[i]) as int >= 0x20 && mode[i] != '"' && mode[i]
            != '\\' {
        text::law_plain_text_is_not_escaped(mode);
    }
    if confirmation_text(mode) == confirmation_text(other) {
        text::law_json_can_be_read_back(mode, other);
    }
}

/// The parts of a confirmation.
proof fn lemma_confirmation(mode: Seq<char>)
    ensures
        ({
            let message = confirmation_text(mode);
            let n: int = text::json_chars(mode).len() as int;
            &&& message.len() == 33 + n
            &&& message.take(9) == "{\"mode\":\""@
            &&& message.subrange(9, 9 + n) == text::json_chars(mode)
            &&& message.skip(9 + n) == "\",\"status\":\"subscribed\"}"@
        }),
{
    let message = confirmation_text(mode);
    let n: int = text::json_chars(mode).len() as int;
    reveal_strlit("{\"mode\":");
    reveal_strlit(",\"status\":\"subscribed\"}");
    reveal_strlit("{\"mode\":\"");
    reveal_strlit("\",\"status\":\"subscribed\"}");
    assert(message.take(9) =~= "{\"mode\":\""@);
    assert(message.subrange(9, 9 + n) =~= text::json_chars(mode));
    assert(message.skip(9 + n) =~= "\",\"status\":\"subscribed\"}"@);
}

} // verus!
