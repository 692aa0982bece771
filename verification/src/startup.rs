//! What a server starts with.

use crate::config::{Config, QueryLogType};
use crate::net::SocketAddr;
use crate::time::{lemma_span, Duration};
use vstd::prelude::*;
use vstd::string::*;

verus! {

/// A listener that needs a certificate.
#[derive(Debug)]
pub enum TlsListener {
    /// It is not configured.
    Off,
    /// It listens at the address, with the files of the certificate and the key.
    On { addr: SocketAddr, cert: String, key: String },
    /// It is configured, but the certificate or the key is not.
    MissingFiles(SocketAddr),
}

/// What a server starts with.
#[derive(Debug)]
pub struct StartupPlan {
    /// Whether the lists are loaded.
    pub load_lists: bool,
    /// How often the lists are loaded again.
    pub refresh_every: Option<Duration>,
    /// How often the counts of the clients are written to disk.
    pub flush_every: Option<Duration>,
    /// Where queries come in over UDP and TCP.
    pub dns: Option<SocketAddr>,
    /// Where queries come in over TLS.
    pub dot: TlsListener,
    /// Where the HTTP interface is.
    pub http: Option<SocketAddr>,
    /// Where the HTTPS interface is.
    pub https: TlsListener,
}

/// `listener` is the listener for an address with files that may be missing.
pub open spec fn is_listener(
    listener: TlsListener,
    addr: Option<SocketAddr>,
    cert: Option<String>,
    key: Option<String>,
) -> bool {
    match addr {
        None => listener is Off,
        Some(a) => if cert is Some && key is Some {
            &&& listener matches TlsListener::On { addr, cert: c, key: k }
            &&& addr == a
            &&& c@ == cert->0@
            &&& k@ == key->0@
        } else {
            listener == TlsListener::MissingFiles(a)
        },
    }
}

/// A task that is run again and again: not where the time between is zero.
pub open spec fn is_period(r: Option<Duration>, wanted: bool, period: Duration) -> bool {
    if wanted && period@ != 0 {
        r == Some(period)
    } else {
        r is None
    }
}

fn listener(addr: Option<SocketAddr>, cert: &Option<String>, key: &Option<String>) -> (r: TlsListener)
    ensures
        is_listener(r, addr, *cert, *key),
{
    match addr {
        None => TlsListener::Off,
        Some(a) => match (cert, key) {
            (Some(c), Some(k)) => TlsListener::On { addr: a, cert: c.clone(), key: k.clone() },
            _ => TlsListener::MissingFiles(a),
        },
    }
}

fn period_of(wanted: bool, period: Duration) -> (r: Option<Duration>)
    ensures
        is_period(r, wanted, period),
{
    if wanted && !period.is_zero() {
        Some(period)
    } else {
        None
    }
}

/// What a server with a configuration starts with.
pub fn plan(config: &Config) -> (r: StartupPlan)
    ensures
        r.load_lists == config.blocking.enabled,
        is_period(r.refresh_every, config.blocking.enabled, config.blocking.refresh_period),
        is_period(
            r.flush_every,
            config.query_log.log_type == QueryLogType::CsvClient,
            config.query_log.flush_interval,
        ),
        r.dns == config.ports.dns,
        is_listener(r.dot, config.ports.dot, config.tls.cert, config.tls.key),
        r.http == config.ports.http,
        is_listener(r.https, config.ports.https, config.tls.cert, config.tls.key),
{
    let csv = match config.query_log.log_type {
        QueryLogType::CsvClient => true,
        _ => false,
    };
    StartupPlan {
        load_lists: config.blocking.enabled,
        refresh_every: period_of(config.blocking.enabled, config.blocking.refresh_period),
        flush_every: period_of(csv, config.query_log.flush_interval),
        dns: config.ports.dns,
        dot: listener(config.ports.dot, &config.tls.cert, &config.tls.key),
        http: config.ports.http,
        https: listener(config.ports.https, &config.tls.cert, &config.tls.key),
    }
}

/// A listener with a certificate is off without an address; with one it listens there exactly where
/// both files are configured.
pub proof fn law_secure_listeners_need_both_files(
    listener: TlsListener,
    addr: SocketAddr,
    cert: Option<String>,
    key: Option<String>,
)
    ensures
        is_listener(listener, None, cert, key) ==> listener is Off,
        is_listener(listener, Some(addr), cert, key) ==> {
            &&& listener !is Off
            &&& listener is On <==> cert is Some && key is Some
            &&& listener matches TlsListener::On { addr: a, cert: c, key: k } ==> a == addr && c@
                == cert->0@ && k@ == key->0@
            &&& listener matches TlsListener::MissingFiles(a) ==> a == addr
        },
{
}

/// A task is run again exactly where it is wanted and there is time between, and after that time.
pub proof fn law_tasks_are_run_again(r: Option<Duration>, wanted: bool, period: Duration)
    requires
        is_period(r, wanted, period),
    ensures
        r is Some <==> wanted && period@ > 0,
        r matches Some(every) ==> every@ == period@,
{
    lemma_span(period);
}

} // verus!
