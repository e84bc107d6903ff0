use vstd::prelude::*;

use serde_json::Value;
use vstd::string::StringExecFns;

use crate::book::OrderBook;
use crate::decimal::digit_char;
use crate::hub::{exchange_tag, Exchange};
use crate::parser::{book_option_view, process_message, text_book};
use crate::json::{is_key_pointer, json_model, json_text_model, member, parse_json, JsonTree};

verus! {

/// The WebSocket endpoint of Binance's market-data stream.
pub const BINANCE_URL: &'static str = "wss://stream.binance.com:9443/ws";

/// The WebSocket endpoint of Bitstamp's market-data stream.
pub const BITSTAMP_URL: &'static str = "wss://ws.bitstamp.net/";

pub open spec fn lower_char(c: char) -> char {
    if 'A' <= c && c <= 'Z' {
        ((c as u32 + 32) as u32) as char
    } else {
        c
    }
}

/// A symbol with its ASCII capitals made small.
pub open spec fn lower_symbol(s: Seq<char>) -> Seq<char> {
    s.map_values(|c: char| lower_char(c))
}

/// The decimal digits of `n`, without leading zeros.
pub open spec fn nat_text(n: nat) -> Seq<char>
    decreases n,
{
    if n < 10 {
        seq![digit_char(n)]
    } else {
        nat_text(n / 10).push(digit_char(n % 10))
    }
}

pub open spec fn binance_subscribe_text(symbol: Seq<char>, depth: nat) -> Seq<char> {
    "{\"method\":\"SUBSCRIBE\",\"params\":[\""@ + lower_symbol(symbol) + "@depth"@ + nat_text(depth)
        + "\"],\"id\":1}"@
}

pub open spec fn bitstamp_channel(symbol: Seq<char>) -> Seq<char> {
    "detail_order_book_"@ + lower_symbol(symbol)
}

pub open spec fn bitstamp_subscribe_text(symbol: Seq<char>) -> Seq<char> {
    "{\"event\":\"bts:subscribe\",\"data\":{\"channel\":\""@ + bitstamp_channel(symbol) + "\"}}"@
}

pub open spec fn bitstamp_ack_text(symbol: Seq<char>) -> Seq<char> {
    "{\"event\":\"bts:subscription_succeeded\",\"channel\":\""@ + bitstamp_channel(symbol)
        + "\",\"data\":{}}"@
}

/// Binance acknowledges a subscription with an object whose `id` is 1 and whose `result`
/// is absent or null.
pub open spec fn is_binance_ack(t: JsonTree) -> bool {
    &&& t is Object
    &&& member(t, "id"@) == Some(JsonTree::Number(Some(1u64)))
    &&& match member(t, "result"@) {
        Some(r) => r is Null,
        None => true,
    }
}

/// Relies on str::to_ascii_lowercase: each ASCII capital becomes its small letter, every
/// other character stays.
#[verifier::external_body]
fn ascii_lowercase(s: &str) -> (r: String)
    ensures
        r@ == lower_symbol(s@),
{
    s.to_ascii_lowercase()
}

fn digit_str(d: u32) -> (r: &'static str)
    requires
        d < 10,
    ensures
        r@ == seq![digit_char(d as nat)],
{
    proof {
        reveal_strlit("0");
        reveal_strlit("1");
        reveal_strlit("2");
        reveal_strlit("3");
        reveal_strlit("4");
        reveal_strlit("5");
        reveal_strlit("6");
        reveal_strlit("7");
        reveal_strlit("8");
        reveal_strlit("9");
    }
    let r = if d == 0 {
        "0"
    } else if d == 1 {
        "1"
    } else if d == 2 {
        "2"
    } else if d == 3 {
        "3"
    } else if d == 4 {
        "4"
    } else if d == 5 {
        "5"
    } else if d == 6 {
        "6"
    } else if d == 7 {
        "7"
    } else if d == 8 {
        "8"
    } else {
        "9"
    };
    assert(r@ =~= seq![digit_char(d as nat)]);
    r
}

fn append_number(out: &mut String, n: u32)
    ensures
        final(out)@ == old(out)@ + nat_text(n as nat),
    decreases n,
{
    if n >= 10 {
        append_number(out, n / 10);
    }
    out.append(digit_str(n % 10));
    proof {
        if n >= 10 {
            assert(nat_text(n as nat) == nat_text((n / 10) as nat).push(digit_char((n % 10) as nat)));
        }
    }
    assert(out@ =~= old(out)@ + nat_text(n as nat));
}

/// The frame that subscribes to Binance's depth stream of `symbol` (made lower case).
pub fn binance_subscribe_frame(symbol: &str, depth: u32) -> (r: String)
    ensures
        r@ == binance_subscribe_text(symbol@, depth as nat),
{
    let lower = ascii_lowercase(symbol);
    let mut out = String::from_str("{\"method\":\"SUBSCRIBE\",\"params\":[\"");
    out.append(lower.as_str());
    out.append("@depth");
    append_number(&mut out, depth);
    out.append("\"],\"id\":1}");
    assert(out@ =~= binance_subscribe_text(symbol@, depth as nat));
    out
}

/// The frame that subscribes to Bitstamp's detailed book channel of `symbol` (made
/// lower case).
pub fn bitstamp_subscribe_frame(symbol: &str) -> (r: String)
    ensures
        r@ == bitstamp_subscribe_text(symbol@),
{
    let lower = ascii_lowercase(symbol);
    let mut out = String::from_str("{\"event\":\"bts:subscribe\",\"data\":{\"channel\":\"");
    out.append("detail_order_book_");
    out.append(lower.as_str());
    out.append("\"}}");
    assert(out@ =~= bitstamp_subscribe_text(symbol@));
    out
}

/// Whether a frame acknowledges the Bitstamp subscription of `symbol`: the exact text
/// that Bitstamp sends.
pub fn is_bitstamp_ack(frame: &str, symbol: &str) -> (r: bool)
    ensures
        r == (frame@ == bitstamp_ack_text(symbol@)),
{
    let lower = ascii_lowercase(symbol);
    let mut expected = String::from_str("{\"event\":\"bts:subscription_succeeded\",\"channel\":\"");
    expected.append("detail_order_book_");
    expected.append(lower.as_str());
    expected.append("\",\"data\":{}}");
    assert(expected@ =~= bitstamp_ack_text(symbol@));
    let given = String::from_str(frame);
    given == expected
}

/// Whether a document acknowledges a Binance subscription.
pub fn is_binance_ack_value(v: &Value) -> (r: bool)
    ensures
        r == is_binance_ack(json_model(*v)),
{
    proof {
        reveal_strlit("/id");
        reveal_strlit("id");
        reveal_strlit("/result");
        reveal_strlit("result");
        assert("/id"@ =~= seq!['/'] + "id"@);
        assert("/result"@ =~= seq!['/'] + "result"@);
        assert(is_key_pointer("/id"@));
        assert(is_key_pointer("/result"@));
        assert("/id"@.skip(1) =~= "id"@);
        assert("/result"@.skip(1) =~= "result"@);
    }
    if !v.is_object() {
        return false;
    }
    let id_ok = match v.pointer("/id") {
        Some(id) => match id.as_u64() {
            Some(n) => n == 1,
            None => false,
        },
        None => false,
    };
    let result_ok = match v.pointer("/result") {
        Some(res) => res.is_null(),
        None => true,
    };
    id_ok && result_ok
}

/// Whether a text frame acknowledges a Binance subscription.
pub fn is_binance_ack_text(frame: &str) -> (r: bool)
    ensures
        r == match json_text_model(frame@) {
            Some(t) => is_binance_ack(t),
            None => false,
        },
{
    match parse_json(frame) {
        Some(v) => is_binance_ack_value(&v),
        None => false,
    }
}

/// Where an upstream connection stands.
#[derive(Clone, Copy, Debug, PartialEq, Eq, Structural)]
pub enum SessionState {
    Disconnected,
    Dialing,
    Handshaking,
    Streaming,
    Closed,
    Errored,
}

/// Why an upstream connection stopped or could not start.
#[derive(Clone, Copy, Debug, PartialEq, Eq, Structural)]
pub enum UpstreamError {
    /// The dial failed.
    UpstreamUnavailable,
    /// The subscription acknowledgement was missing or unexpected.
    HandshakeFailed,
    /// The socket was closed cleanly.
    UpstreamClosed,
    /// The socket failed with a protocol error.
    UpstreamProtocol,
}

pub open spec fn subscribe_text(exchange: Exchange, symbol: Seq<char>, depth: nat) -> Seq<char> {
    match exchange {
        Exchange::Binance => binance_subscribe_text(symbol, depth),
        Exchange::Bitstamp => bitstamp_subscribe_text(symbol),
    }
}

/// Whether `reply` acknowledges the subscription of `symbol` on `exchange`.
pub open spec fn acknowledges(exchange: Exchange, symbol: Seq<char>, reply: Seq<char>) -> bool {
    match exchange {
        Exchange::Binance => match json_text_model(reply) {
            Some(t) => is_binance_ack(t),
            None => false,
        },
        Exchange::Bitstamp => reply == bitstamp_ack_text(symbol),
    }
}

pub struct SessionView {
    pub exchange: Exchange,
    pub symbol: Seq<char>,
    pub depth: nat,
    pub state: SessionState,
}

/// The decisions of one upstream connection; the caller dials, sends and reads, and
/// reports each outcome here.
pub struct Session {
    exchange: Exchange,
    symbol: String,
    depth: u32,
    state: SessionState,
}

impl View for Session {
    type V = SessionView;

    closed spec fn view(&self) -> SessionView {
        SessionView {
            exchange: self.exchange,
            symbol: self.symbol@,
            depth: self.depth as nat,
            state: self.state,
        }
    }
}

impl Session {
    pub fn new(exchange: Exchange, symbol: &str, depth: u32) -> (r: Session)
        ensures
            r@ == (SessionView {
                exchange,
                symbol: symbol@,
                depth: depth as nat,
                state: SessionState::Disconnected,
            }),
    {
        Session { exchange, symbol: String::from_str(symbol), depth, state: SessionState::Disconnected }
    }

    pub fn state(&self) -> (r: SessionState)
        ensures
            r == self@.state,
    {
        self.state
    }

    pub fn exchange(&self) -> (r: Exchange)
        ensures
            r == self@.exchange,
    {
        self.exchange
    }

    /// The endpoint to dial.
    pub fn url(&self) -> (r: &'static str)
        ensures
            r@ == (match self@.exchange {
                Exchange::Binance => BINANCE_URL@,
                Exchange::Bitstamp => BITSTAMP_URL@,
            }),
    {
        match self.exchange {
            Exchange::Binance => BINANCE_URL,
            Exchange::Bitstamp => BITSTAMP_URL,
        }
    }

    /// Starts a dial from the disconnected state; returns whether it did.
    pub fn start_dial(&mut self) -> (r: bool)
        ensures
            r == (old(self)@.state == SessionState::Disconnected),
            final(self)@ == (SessionView {
                state: if r {
                    SessionState::Dialing
                } else {
                    old(self)@.state
                },
                ..old(self)@
            }),
    {
        if self.state == SessionState::Disconnected {
            self.state = SessionState::Dialing;
            true
        } else {
            false
        }
    }

    /// The outcome of a dial: on success the subscription frame to send, and the session
    /// waits for its acknowledgement; on failure `UpstreamUnavailable`, and the session is
    /// disconnected. Outside a dial nothing changes and the result is `UpstreamUnavailable`.
    pub fn on_dialed(&mut self, connected: bool) -> (r: Result<String, UpstreamError>)
        ensures
            old(self)@.state == SessionState::Dialing && connected ==> {
                &&& r matches Ok(frame) && frame@ == subscribe_text(
                    old(self)@.exchange,
                    old(self)@.symbol,
                    old(self)@.depth,
                )
                &&& final(self)@ == (SessionView { state: SessionState::Handshaking, ..old(self)@ })
            },
            old(self)@.state == SessionState::Dialing && !connected ==> {
                &&& r == Err::<String, UpstreamError>(UpstreamError::UpstreamUnavailable)
                &&& final(self)@ == (SessionView { state: SessionState::Disconnected, ..old(self)@ })
            },
            old(self)@.state != SessionState::Dialing ==> {
                &&& r == Err::<String, UpstreamError>(UpstreamError::UpstreamUnavailable)
                &&& final(self)@ == old(self)@
            },
    {
        if self.state != SessionState::Dialing {
            return Err(UpstreamError::UpstreamUnavailable);
        }
        if !connected {
            self.state = SessionState::Disconnected;
            return Err(UpstreamError::UpstreamUnavailable);
        }
        self.state = SessionState::Handshaking;
        let frame = match self.exchange {
            Exchange::Binance => binance_subscribe_frame(self.symbol.as_str(), self.depth),
            Exchange::Bitstamp => bitstamp_subscribe_frame(self.symbol.as_str()),
        };
        Ok(frame)
    }

    /// The first reply after subscribing (`None` where it was not a text frame): an
    /// acknowledgement starts the stream; anything else fails the handshake.
    pub fn on_handshake(&mut self, reply: Option<&str>) -> (r: Result<(), UpstreamError>)
        ensures
            old(self)@.state == SessionState::Handshaking ==> {
                let ok = reply matches Some(t) && acknowledges(
                    old(self)@.exchange,
                    old(self)@.symbol,
                    t@,
                );
                &&& (ok ==> r is Ok && final(self)@ == (SessionView {
                    state: SessionState::Streaming,
                    ..old(self)@
                }))
                &&& (!ok ==> r == Err::<(), UpstreamError>(UpstreamError::HandshakeFailed)
                    && final(self)@ == (SessionView { state: SessionState::Errored, ..old(self)@ }))
            },
            old(self)@.state != SessionState::Handshaking ==> {
                &&& r == Err::<(), UpstreamError>(UpstreamError::HandshakeFailed)
                &&& final(self)@ == old(self)@
            },
    {
        if self.state != SessionState::Handshaking {
            return Err(UpstreamError::HandshakeFailed);
        }
        let ok = match reply {
            Some(text) => match self.exchange {
                Exchange::Binance => is_binance_ack_text(text),
                Exchange::Bitstamp => is_bitstamp_ack(text, self.symbol.as_str()),
            },
            None => false,
        };
        if ok {
            self.state = SessionState::Streaming;
            Ok(())
        } else {
            self.state = SessionState::Errored;
            Err(UpstreamError::HandshakeFailed)
        }
    }

    /// A text frame while streaming: the book it carries, tagged with the session's
    /// exchange and cut to its depth; `None` for a frame to skip, or outside streaming.
    pub fn on_frame(&self, text: &str) -> (r: Option<OrderBook>)
        ensures
            self@.state == SessionState::Streaming ==> book_option_view(r) == text_book(
                text@,
                exchange_tag(self@.exchange),
                self@.depth,
            ),
            self@.state != SessionState::Streaming ==> r is None,
    {
        if self.state != SessionState::Streaming {
            return None;
        }
        process_message(text, self.exchange.tag(), self.depth as usize)
    }

    /// The socket ended: `UpstreamClosed` after a clean close, `UpstreamProtocol` after a
    /// protocol error.
    pub fn on_ended(&mut self, clean: bool) -> (r: UpstreamError)
        ensures
            r == if clean {
                UpstreamError::UpstreamClosed
            } else {
                UpstreamError::UpstreamProtocol
            },
            final(self)@ == (SessionView {
                state: if clean {
                    SessionState::Closed
                } else {
                    SessionState::Errored
                },
                ..old(self)@
            }),
    {
        if clean {
            self.state = SessionState::Closed;
            UpstreamError::UpstreamClosed
        } else {
            self.state = SessionState::Errored;
            UpstreamError::UpstreamProtocol
        }
    }

    /// After a close or an error the session may dial again.
    pub fn reset(&mut self) -> (r: bool)
        ensures
            r == (old(self)@.state == SessionState::Closed || old(self)@.state
                == SessionState::Errored),
            final(self)@ == (SessionView {
                state: if r {
                    SessionState::Disconnected
                } else {
                    old(self)@.state
                },
                ..old(self)@
            }),
    {
        if self.state == SessionState::Closed || self.state == SessionState::Errored {
            self.state = SessionState::Disconnected;
            true
        } else {
            false
        }
    }
}

} // verus!
