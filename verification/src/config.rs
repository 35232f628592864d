//! The configuration of the router and the rules that it has to meet.

use vstd::prelude::*;
use vstd::string::*;

use crate::string_map::StringMap;

verus! {

/// An IP address: four bytes, or eight groups of sixteen bits.
#[derive(Clone, Copy, Debug, PartialEq, Eq)]
pub enum IpAddress {
    V4([u8; 4]),
    V6([u16; 8]),
}

/// Whether an address is one of the machine itself: 127.0.0.0/8 or ::1.
pub open spec fn loopback(ip: IpAddress) -> bool {
    match ip {
        IpAddress::V4(octets) => octets@[0] == 127,
        IpAddress::V6(groups) => groups@ == seq![0u16, 0, 0, 0, 0, 0, 0, 1],
    }
}

impl IpAddress {
    /// Whether this is an address of the machine itself.
    pub fn is_loopback(&self) -> (yes: bool)
        ensures
            yes == loopback(*self),
    {
        match self {
            IpAddress::V4(octets) => octets[0] == 127,
            IpAddress::V6(groups) => {
                let yes: bool = groups[0] == 0 && groups[1] == 0 && groups[2] == 0 && groups[3] == 0
                    && groups[4] == 0 && groups[5] == 0 && groups[6] == 0 && groups[7] == 1;
                assert(yes ==> groups@ =~= seq![0u16, 0, 0, 0, 0, 0, 0, 1]);
                yes
            },
        }
    }
}

/// An address to listen on.
#[derive(Clone, Copy, Debug, PartialEq, Eq)]
pub struct BindAddr {
    pub ip: IpAddress,
    pub port: u16,
}

/// The address 127.0.0.1 with a port.
pub open spec fn is_localhost(addr: BindAddr, port: u16) -> bool {
    addr.port == port && match addr.ip {
        IpAddress::V4(octets) => octets@ == seq![127u8, 0, 0, 1],
        IpAddress::V6(_) => false,
    }
}

fn localhost(port: u16) -> (addr: BindAddr)
    ensures
        is_localhost(addr, port),
{
    let octets: [u8; 4] = [127, 0, 0, 1];
    assert(octets@ =~= seq![127u8, 0, 0, 1]);
    BindAddr { ip: IpAddress::V4(octets), port }
}

/// Where the router listens.
#[derive(Clone, Debug)]
pub struct ServerConfig {
    pub listen_addr: BindAddr,
    pub sub_addr: BindAddr,
    pub control_socket: String,
    /// Metrics stay on the machine: where they are served, the address has to be
    /// one of the machine itself.
    pub metrics_addr: Option<BindAddr>,
}

impl Default for ServerConfig {
    fn default() -> (c: Self)
        ensures
            is_localhost(c.listen_addr, 8787),
            is_localhost(c.sub_addr, 8788),
            c.control_socket@ == "/run/whdr/ctl.sock"@,
            c.metrics_addr is None,
    {
        ServerConfig {
            listen_addr: localhost(8787),
            sub_addr: localhost(8788),
            control_socket: "/run/whdr/ctl.sock".to_owned(),
            metrics_addr: None,
        }
    }
}

/// How subscribers are served.
#[derive(Clone, Debug)]
pub struct SubscribersConfig {
    pub token_store: Option<String>,
    pub allow_plaintext_lan: bool,
    pub ws_idle_timeout_ms: u64,
    pub tls: Option<TlsConfig>,
}

impl Default for SubscribersConfig {
    fn default() -> (c: Self)
        ensures
            c.token_store is None,
            !c.allow_plaintext_lan,
            c.ws_idle_timeout_ms == 30_000,
            c.tls is None,
    {
        SubscribersConfig {
            token_store: None,
            allow_plaintext_lan: false,
            ws_idle_timeout_ms: 30_000,
            tls: None,
        }
    }
}

/// The files of a certificate.
#[derive(Clone, Debug)]
pub struct TlsConfig {
    pub cert: String,
    pub key: String,
}

impl Default for TlsConfig {
    fn default() -> (c: Self)
        ensures
            c.cert@.len() == 0,
            c.key@.len() == 0,
    {
        TlsConfig { cert: String::new(), key: String::new() }
    }
}

/// Which extensions run.
#[derive(Clone, Debug)]
pub struct ExtensionsConfig {
    pub enabled: Vec<String>,
    pub autostart_all: bool,
}

impl Default for ExtensionsConfig {
    fn default() -> (c: Self)
        ensures
            c.enabled@.len() == 0,
            !c.autostart_all,
    {
        ExtensionsConfig { enabled: Vec::new(), autostart_all: false }
    }
}

/// The limits of what is accepted, queued and borne with.
#[derive(Clone, Copy, Debug, PartialEq, Eq, Structural)]
pub struct LimitsConfig {
    pub max_body_bytes: usize,
    pub max_in_flight: usize,
    pub sub_queue_len: usize,
    pub sub_queue_bytes: usize,
    pub dispatch_timeout_ms: u64,
    pub max_protocol_errors: usize,
    pub hang_kill_threshold: usize,
    pub crashloop_threshold: usize,
    pub crashloop_window_ms: u64,
}

impl Default for LimitsConfig {
    fn default() -> (c: Self)
        ensures
            c == (LimitsConfig {
                max_body_bytes: 1_048_576,
                max_in_flight: 64,
                sub_queue_len: 1024,
                sub_queue_bytes: 8_388_608,
                dispatch_timeout_ms: 10_000,
                max_protocol_errors: 3,
                hang_kill_threshold: 3,
                crashloop_threshold: 5,
                crashloop_window_ms: 60_000,
            }),
    {
        LimitsConfig {
            max_body_bytes: 1_048_576,
            max_in_flight: 64,
            sub_queue_len: 1024,
            sub_queue_bytes: 8_388_608,
            dispatch_timeout_ms: 10_000,
            max_protocol_errors: 3,
            hang_kill_threshold: 3,
            crashloop_threshold: 5,
            crashloop_window_ms: 60_000,
        }
    }
}

/// How long extensions are waited for.
#[derive(Clone, Copy, Debug, PartialEq, Eq, Structural)]
pub struct TimeoutsConfig {
    pub register_ms: u64,
    pub drain_ms: u64,
    pub term_grace_ms: u64,
}

impl Default for TimeoutsConfig {
    fn default() -> (c: Self)
        ensures
            c == (TimeoutsConfig { register_ms: 5_000, drain_ms: 5_000, term_grace_ms: 3_000 }),
    {
        TimeoutsConfig { register_ms: 5_000, drain_ms: 5_000, term_grace_ms: 3_000 }
    }
}

/// Whether and how events are stored for replay.
#[derive(Clone, Debug)]
pub struct DeliveryConfig {
    pub enabled: bool,
    pub store_path: String,
    pub retention_secs: u64,
    pub max_bytes: u64,
    pub max_events: u64,
    pub prune_interval_secs: u64,
}

impl Default for DeliveryConfig {
    fn default() -> (c: Self)
        ensures
            !c.enabled,
            c.store_path@ == "/var/lib/whdr/delivery.redb"@,
            c.retention_secs == 86_400,
            c.max_bytes == 536_870_912,
            c.max_events == 1_000_000,
            c.prune_interval_secs == 300,
    {
        DeliveryConfig {
            enabled: false,
            store_path: "/var/lib/whdr/delivery.redb".to_owned(),
            retention_secs: 86_400,
            max_bytes: 536_870_912,
            max_events: 1_000_000,
            prune_interval_secs: 300,
        }
    }
}

/// The configuration of the router.
pub struct Config {
    pub server: ServerConfig,
    pub subscribers: SubscribersConfig,
    pub extensions: ExtensionsConfig,
    pub limits: LimitsConfig,
    pub timeouts: TimeoutsConfig,
    pub delivery: DeliveryConfig,
    pub secrets_file: Option<String>,
    pub secrets: StringMap<String>,
}

/// Why a configuration is refused.
#[derive(Clone, Copy, Debug, PartialEq, Eq, Structural)]
pub enum ConfigError {
    TlsNotImplemented,
    MetricsNotLoopback,
    PlaintextSubscriberBind,
}

/// The sentence that reports a refused configuration.
pub open spec fn error_message(error: ConfigError) -> Seq<char> {
    match error {
        ConfigError::TlsNotImplemented => {
            "subscriber TLS is configured but native TLS is not implemented"@
        },
        ConfigError::MetricsNotLoopback => {
            "metrics_addr must bind a loopback address; scrape locally or front with a proxy"@
        },
        ConfigError::PlaintextSubscriberBind => {
            "refusing non-loopback subscriber bind without TLS or allow_plaintext_lan = true"@
        },
    }
}

impl ConfigError {
    /// The sentence that reports this error.
    pub fn message(&self) -> (msg: String)
        ensures
            msg@ == error_message(*self),
    {
        match self {
            ConfigError::TlsNotImplemented => {
                "subscriber TLS is configured but native TLS is not implemented".to_owned()
            },
            ConfigError::MetricsNotLoopback => {
                "metrics_addr must bind a loopback address; scrape locally or front with a proxy".to_owned()
            },
            ConfigError::PlaintextSubscriberBind => {
                "refusing non-loopback subscriber bind without TLS or allow_plaintext_lan = true".to_owned()
            },
        }
    }
}

/// The first rule that a configuration breaks.
pub open spec fn first_error(config: Config) -> Option<ConfigError> {
    if config.subscribers.tls is Some {
        Some(ConfigError::TlsNotImplemented)
    } else if config.server.metrics_addr is Some && !loopback(
        config.server.metrics_addr->Some_0.ip,
    ) {
        Some(ConfigError::MetricsNotLoopback)
    } else if !loopback(config.server.sub_addr.ip) && !config.subscribers.allow_plaintext_lan {
        Some(ConfigError::PlaintextSubscriberBind)
    } else {
        None
    }
}

impl Config {
    /// Where the token store is.
    pub fn token_store_path(&self) -> (path: String)
        ensures
            path@ == (match self.subscribers.token_store {
                Some(given) => given@,
                None => "/var/lib/whdr/tokens.toml"@,
            }),
    {
        match &self.subscribers.token_store {
            Some(given) => given.clone(),
            None => "/var/lib/whdr/tokens.toml".to_owned(),
        }
    }

    /// Checks the rules, in their order.
    pub fn validate(&self) -> (r: Result<(), ConfigError>)
        ensures
            match r {
                Ok(()) => first_error(*self) is None,
                Err(e) => first_error(*self) == Some(e),
            },
    {
        if self.subscribers.tls.is_some() {
            return Err(ConfigError::TlsNotImplemented);
        }
        if let Some(metrics_addr) = &self.server.metrics_addr {
            if !metrics_addr.ip.is_loopback() {
                return Err(ConfigError::MetricsNotLoopback);
            }
        }
        if !self.server.sub_addr.ip.is_loopback() && !self.subscribers.allow_plaintext_lan {
            return Err(ConfigError::PlaintextSubscriberBind);
        }
        Ok(())
    }
}

/// Tokens cross the network in the clear only where that was asked for, and
/// metrics never leave the machine: a configuration that is accepted binds
/// subscribers to the machine itself unless plaintext on the network is allowed,
/// and metrics to the machine itself.
pub proof fn accepted_configurations_are_guarded(config: Config)
    requires
        first_error(config) is None,
    ensures
        loopback(config.server.sub_addr.ip) || config.subscribers.allow_plaintext_lan,
        config.server.metrics_addr is Some ==> loopback(config.server.metrics_addr->Some_0.ip),
        config.subscribers.tls is None,
{
}

/// A number in octal, without leading zeros.
pub open spec fn octal(n: nat) -> Seq<char>
    decreases n,
{
    if n < 8 {
        seq![crate::text::digit(n)]
    } else {
        octal(n / 8).push(crate::text::digit(n % 8))
    }
}

fn push_octal(out: &mut String, n: u32)
    ensures
        final(out)@ == old(out)@ + octal(n as nat),
    decreases n,
{
    if n >= 8 {
        push_octal(out, n / 8);
    }
    out.push((48 + (n % 8) as u8) as char);
    assert(out@ =~= old(out)@ + octal(n as nat));
}

/// Checks the permission bits of a file that holds secrets: nobody but its owner
/// may read it. `mode` is the mode of the file, of which the last nine bits
/// count.
pub fn enforce_0600(label: &str, path: &str, mode: u32) -> (r: Result<(), String>)
    ensures
        match r {
            Ok(()) => mode % 512 == 384,
            Err(msg) => mode % 512 != 384 && msg@ == label@ + " "@ + path@
                + " must have mode 0600, got "@ + octal((mode % 512) as nat),
        },
{
    let bits: u32 = mode % 512;
    if bits != 384 {
        let mut msg: String = label.to_owned().concat(" ").concat(path).concat(
            " must have mode 0600, got ",
        );
        push_octal(&mut msg, bits);
        return Err(msg);
    }
    Ok(())
}

/// A configuration is accepted if and only if no certificate is configured, metrics
/// stay on the machine itself, and subscribers are served on the machine itself or
/// plaintext on the network is allowed. Addresses of the machine itself are those
/// that begin with 127, and `::1`.
pub proof fn which_configurations_are_accepted(config: Config)
    ensures
        first_error(config) is None <==> {
            &&& config.subscribers.tls is None
            &&& match config.server.metrics_addr {
                Some(addr) => match addr.ip {
                    IpAddress::V4(octets) => octets@[0] == 127,
                    IpAddress::V6(groups) => groups@[7] == 1 && forall|i: int|
                        0 <= i < 7 ==> groups@[i] == 0,
                },
                None => true,
            }
            &&& config.subscribers.allow_plaintext_lan || match config.server.sub_addr.ip {
                IpAddress::V4(octets) => octets@[0] == 127,
                IpAddress::V6(groups) => groups@[7] == 1 && forall|i: int|
                    0 <= i < 7 ==> groups@[i] == 0,
            }
        },
        config.subscribers.tls is Some ==> first_error(config) == Some(
            ConfigError::TlsNotImplemented,
        ),
{
    lemma_loopback(config.server.sub_addr.ip);
    match config.server.metrics_addr {
        Some(addr) => {
            lemma_loopback(addr.ip);
        },
        None => {},
    }
}

proof fn lemma_loopback(ip: IpAddress)
    ensures
        loopback(ip) <==> match ip {
            IpAddress::V4(octets) => octets@[0] == 127,
            IpAddress::V6(groups) => groups@[7] == 1 && forall|i: int|
                0 <= i < 7 ==> groups@[i] == 0,
        },
{
    match ip {
        IpAddress::V6(groups) => {
            let want = seq![0u16, 0, 0, 0, 0, 0, 0, 1];
            if groups@[7] == 1 && (forall|i: int| 0 <= i < 7 ==> groups@[i] == 0) {
                assert(groups@ =~= want);
            }
            if groups@ == want {
                assert forall|i: int| 0 <= i < 7 implies groups@[i] == 0 by {
                    assert(want[i] == 0);
                }
            }
        },
        IpAddress::V4(_) => {},
    }
}

/// The number that octal digits stand for.
pub open spec fn octal_value(digits: Seq<char>) -> int
    decreases digits.len(),
{
    if digits.len() == 0 {
        0
    } else {
        8 * octal_value(digits.drop_last()) + (digits.last() as int - '0' as int)
    }
}

/// A number in octal has no leading zeros and only octal digits, and is read back as
/// the number.
pub proof fn octal_is_read_back(n: nat)
    ensures
        octal(n).len() > 0,
        n > 0 ==> octal(n)[0] != '0',
        forall|i: int| 0 <= i < octal(n).len() ==> '0' <= (#[trigger] octal(n)[i]) <= '7',
        octal_value(octal(n)) == n,
    decreases n,
{
    if n >= 8 {
        octal_is_read_back(n / 8);
        let before = octal(n / 8);
        let whole = octal(n);
        assert(whole.drop_last() =~= before);
        assert(whole[0] == before[0]);
        assert forall|i: int| 0 <= i < whole.len() implies '0' <= (#[trigger] whole[i]) <= '7' by {
            if i < before.len() {
                assert(whole[i] == before[i]);
            }
        }
    } else {
        assert(octal(n).drop_last() =~= Seq::<char>::empty());
        assert(octal_value(Seq::<char>::empty()) == 0);
    }
}

/// The addresses that are listened on by default are of this machine alone.
pub proof fn local_addresses(addr: BindAddr, port: u16)
    requires
        is_localhost(addr, port),
    ensures
        addr.port == port,
        match addr.ip {
            IpAddress::V4(octets) => octets@.len() == 4 && octets@[0] == 127 && octets@[1] == 0
                && octets@[2] == 0 && octets@[3] == 1,
            IpAddress::V6(_) => false,
        },
{
}

/// A refused configuration is reported with what is wrong with it.
pub proof fn refusals_are_reported()
    ensures
        error_message(ConfigError::TlsNotImplemented)
            == "subscriber TLS is configured but native TLS is not implemented"@,
        error_message(ConfigError::MetricsNotLoopback)
            == "metrics_addr must bind a loopback address; scrape locally or front with a proxy"@,
        error_message(ConfigError::PlaintextSubscriberBind)
            == "refusing non-loopback subscriber bind without TLS or allow_plaintext_lan = true"@,
{
}

} // verus!
