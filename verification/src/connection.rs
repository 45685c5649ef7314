//! How to reach the broker: what a client is set up with, decided from
//! what the user asked for.

use vstd::prelude::*;

verus! {

/// The port that is handed on for a WebSocket broker. The address of such
/// a broker is a URL that carries its own port; this one goes unused.
pub const WEBSOCKET_PORT: u16 = 666;

/// How many requests may wait between the client and its connection.
pub const REQUEST_CAPACITY: usize = 10;

/// What every generated client identifier begins with.
pub open spec fn client_id_prefix() -> Seq<char> {
    seq!['m', 'q', 't', 't', 'u', 'i', '-']
}

/// The broker as the user names it.
#[derive(Clone, Debug)]
pub enum Broker {
    Tcp { host: String, port: u16 },
    Ssl { host: String, port: u16 },
    WebSocket(String),
    WebSocketSsl(String),
}

/// The kind of transport that carries the connection. `Tls` and `Wss` are
/// encrypted.
#[derive(Clone, Copy, Debug, PartialEq, Eq, Structural)]
pub enum Link {
    Tcp,
    Tls,
    Ws,
    Wss,
}

/// What a client is set up with.
#[derive(Clone, Debug)]
pub struct ClientSettings {
    pub link: Link,
    pub host: String,
    pub port: u16,
    pub client_id: String,
    pub credentials: Option<(String, String)>,
    pub max_packet_size: usize,
    pub request_capacity: usize,
}

impl Broker {
    /// The transport that this broker is reached over.
    pub open spec fn link(self) -> Link {
        match self {
            Broker::Tcp { .. } => Link::Tcp,
            Broker::Ssl { .. } => Link::Tls,
            Broker::WebSocket(_) => Link::Ws,
            Broker::WebSocketSsl(_) => Link::Wss,
        }
    }

    /// The address of this broker: a host name, or for a WebSocket the URL.
    pub open spec fn address(self) -> Seq<char> {
        match self {
            Broker::Tcp { host, .. } => host@,
            Broker::Ssl { host, .. } => host@,
            Broker::WebSocket(url) => url@,
            Broker::WebSocketSsl(url) => url@,
        }
    }

    /// The port of this broker.
    pub open spec fn port(self) -> u16 {
        match self {
            Broker::Tcp { port, .. } => port,
            Broker::Ssl { port, .. } => port,
            Broker::WebSocket(_) => WEBSOCKET_PORT,
            Broker::WebSocketSsl(_) => WEBSOCKET_PORT,
        }
    }
}

/// The character for one hexadecimal digit.
pub open spec fn hex_digit(value: nat) -> char
    recommends
        value < 16,
{
    seq!['0', '1', '2', '3', '4', '5', '6', '7', '8', '9', 'a', 'b', 'c', 'd', 'e', 'f'][value as int]
}

/// `value` in hexadecimal: lower case, no prefix, no leading zeros.
pub open spec fn lower_hex(value: nat) -> Seq<char>
    decreases value,
{
    if value < 16 {
        seq![hex_digit(value)]
    } else {
        lower_hex(value / 16).push(hex_digit(value % 16))
    }
}

/// The identifier of a client that was given none: the prefix and `suffix`
/// in hexadecimal.
pub open spec fn generated_client_id(suffix: u32) -> Seq<char> {
    client_id_prefix() + lower_hex(suffix as nat)
}

/// The identifier of the client: the one that was asked for, or else the
/// generated one.
pub open spec fn client_id_of(given: Option<Seq<char>>, suffix: u32) -> Seq<char> {
    match given {
        Some(id) => id,
        None => generated_client_id(suffix),
    }
}

/// The credentials to log in with: user name and password, where both are
/// there.
pub open spec fn credentials_of(
    username: Option<Seq<char>>,
    password: Option<Seq<char>>,
) -> Option<(Seq<char>, Seq<char>)> {
    match (username, password) {
        (Some(name), Some(secret)) => Some((name, secret)),
        _ => None,
    }
}

/// `settings` are the settings for this broker, client identifier and
/// login.
pub open spec fn settings_for(
    settings: ClientSettings,
    broker: Broker,
    client_id: Seq<char>,
    username: Option<Seq<char>>,
    password: Option<Seq<char>>,
) -> bool {
    &&& settings.link == broker.link()
    &&& settings.host@ == broker.address()
    &&& settings.port == broker.port()
    &&& settings.client_id@ == client_id
    &&& settings.credentials.deep_view() == credentials_of(username, password)
    &&& settings.max_packet_size == usize::MAX
    &&& settings.request_capacity == REQUEST_CAPACITY
}

/// A generated identifier is the prefix and one to eight digits.
pub proof fn lemma_generated_client_id_len(suffix: u32)
    ensures
        8 <= generated_client_id(suffix).len() <= 15,
        generated_client_id(suffix).take(7) == client_id_prefix(),
{
    assert(vstd::arithmetic::power::pow(16, 8) == 0x1_0000_0000) by {
        reveal_with_fuel(vstd::arithmetic::power::pow, 9);
    }
    lemma_lower_hex_len(suffix as nat, 8);
    assert(generated_client_id(suffix).take(7) =~= client_id_prefix());
}

/// A number below `16^digits` has at most `digits` hexadecimal digits.
proof fn lemma_lower_hex_len(value: nat, digits: nat)
    requires
        digits >= 1,
        value < vstd::arithmetic::power::pow(16, digits),
    ensures
        1 <= lower_hex(value).len() <= digits,
    decreases digits,
{
    vstd::arithmetic::power::lemma_pow1(16);
    if value >= 16 {
        let fewer = (digits - 1) as nat;
        vstd::arithmetic::power::lemma_pow_adds(16, 1, fewer);
        assert(value < 16 * vstd::arithmetic::power::pow(16, fewer));
        lemma_lower_hex_len(value / 16, fewer);
    }
}

/// The text of one hexadecimal digit.
fn hex_digit_text(value: u32) -> (text: &'static str)
    requires
        value < 16,
    ensures
        text@ == seq![hex_digit(value as nat)],
{
    proof {
        reveal_strlit("0");
        reveal_strlit("1");
        reveal_strlit("2");
        reveal_strlit("3");
        reveal_strlit("4");
        reveal_strlit("5");
        reveal_strlit("6");
        reveal_strlit("7");
        reveal_strlit("8");
        reveal_strlit("9");
        reveal_strlit("a");
        reveal_strlit("b");
        reveal_strlit("c");
        reveal_strlit("d");
        reveal_strlit("e");
        reveal_strlit("f");
    }
    let text = match value {
        0 => "0",
        1 => "1",
        2 => "2",
        3 => "3",
        4 => "4",
        5 => "5",
        6 => "6",
        7 => "7",
        8 => "8",
        9 => "9",
        10 => "a",
        11 => "b",
        12 => "c",
        13 => "d",
        14 => "e",
        _ => "f",
    };
    assert(text@ =~= seq![hex_digit(value as nat)]);
    text
}

/// Writes `value` in hexadecimal behind what `text` holds.
pub fn push_lower_hex(text: &mut String, value: u32)
    ensures
        final(text)@ == old(text)@ + lower_hex(value as nat),
    decreases value,
{
    if value >= 16 {
        push_lower_hex(text, value / 16);
    }
    text.append(hex_digit_text(value % 16));
    assert(text@ =~= old(text)@ + lower_hex(value as nat));
}

/// The identifier of a client that was given none.
pub fn generate_client_id(suffix: u32) -> (id: String)
    ensures
        id@ == generated_client_id(suffix),
{
    proof {
        reveal_strlit("mqttui-");
    }
    let mut id = String::from_str("mqttui-");
    assert(id@ =~= client_id_prefix());
    push_lower_hex(&mut id, suffix);
    id
}

/// The number behind the prefix of a generated client identifier:
/// `rand::random::<u32>()`, a draw from the generator of the calling
/// thread. Nothing is known of the number drawn.
#[verifier::external_body]
fn draw_suffix() -> u32 {
    rand::random::<u32>()
}

/// The credentials to log in with: user name and password, where both are
/// there.
pub fn credentials(
    username: &Option<String>,
    password: &Option<String>,
) -> (login: Option<(String, String)>)
    ensures
        login.deep_view() == credentials_of(username.deep_view(), password.deep_view()),
{
    match (username, password) {
        (Some(name), Some(secret)) => Some((name.clone(), secret.clone())),
        _ => None,
    }
}

/// The settings for a client with the identifier `client_id`.
pub fn settings_with_id(
    broker: &Broker,
    client_id: String,
    username: &Option<String>,
    password: &Option<String>,
) -> (settings: ClientSettings)
    ensures
        settings_for(
            settings,
            *broker,
            client_id@,
            username.deep_view(),
            password.deep_view(),
        ),
{
    let (link, host, port) = match broker {
        Broker::Tcp { host, port } => (Link::Tcp, host.clone(), *port),
        Broker::Ssl { host, port } => (Link::Tls, host.clone(), *port),
        Broker::WebSocket(url) => (Link::Ws, url.clone(), WEBSOCKET_PORT),
        Broker::WebSocketSsl(url) => (Link::Wss, url.clone(), WEBSOCKET_PORT),
    };
    ClientSettings {
        link,
        host,
        port,
        client_id,
        credentials: credentials(username, password),
        max_packet_size: usize::MAX,
        request_capacity: REQUEST_CAPACITY,
    }
}

/// The settings for a client, where `suffix` is the number to generate an
/// identifier from if none is given.
pub fn settings_with_suffix(
    broker: &Broker,
    client_id: &Option<String>,
    suffix: u32,
    username: &Option<String>,
    password: &Option<String>,
) -> (settings: ClientSettings)
    ensures
        settings_for(
            settings,
            *broker,
            client_id_of(client_id.deep_view(), suffix),
            username.deep_view(),
            password.deep_view(),
        ),
{
    let id = match client_id {
        Some(id) => id.clone(),
        None => generate_client_id(suffix),
    };
    settings_with_id(broker, id, username, password)
}

/// The settings for a client. Where no identifier is given, one is
/// generated from a number drawn at random.
pub fn client_settings(
    broker: &Broker,
    client_id: &Option<String>,
    username: &Option<String>,
    password: &Option<String>,
) -> (settings: ClientSettings)
    ensures
        exists|suffix: u32|
            settings_for(
                settings,
                *broker,
                #[trigger] client_id_of(client_id.deep_view(), suffix),
                username.deep_view(),
                password.deep_view(),
            ),
        client_id is Some ==> settings.client_id@ == client_id->0@,
{
    let suffix = match client_id {
        Some(_) => 0,
        None => draw_suffix(),
    };
    settings_with_suffix(broker, client_id, suffix, username, password)
}

} // verus!
