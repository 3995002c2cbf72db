//! Core logic of a server-side analytics aggregator and its client-side
//! collection middleware: batching of access records with size- and
//! time-triggered flushes, the ingestion wire format, enrichment of records
//! with geolocation and device data, hot-swappable renewable resources, and
//! the periodic anonymization rule.

pub mod access;
pub mod anonymize;
pub mod decode;
pub mod enrich;
pub mod ingest;
pub mod pool;
pub mod renew;
pub mod util;
pub mod wire;

use vstd::prelude::*;
use vstd::string::StringExecFns;

verus! {

/// Configuration of a client service talking to the gateway, read from the
/// environment by the embedding process.
pub struct Config {
    /// URL to the gateway.
    pub url: String,
    /// The property's UUID.
    pub property: String,
    /// The property's secret.
    pub secret: String,
    /// The current service's hostname.
    pub host: String,
}

/// The content of the `robots.txt` file served for the given host.
pub fn robots(host: &str) -> (r: String)
    ensures
        r@ == "User-agent: *\nAllow: /\nSitemap: https://"@ + host@ + "/sitemap.xml\n"@,
{
    let mut out = String::from_str("User-agent: *\nAllow: /\nSitemap: https://");
    out.append(host);
    out.append("/sitemap.xml\n");
    out
}

/// The health endpoint's body.
pub struct Health {
    /// The service's status.
    pub status: String,
    /// In case of error, the reason.
    pub reason: Option<String>,
}

/// The health endpoint's reply, from the outcome of the store's ping:
/// `OK` with no reason and a 200 when it answered, `KO` with the error's
/// text and a 500 when it failed.
pub fn health_report(db_error: Option<String>) -> (r: (Health, u16))
    ensures
        db_error is None ==> r.0.status@ == "OK"@ && r.0.reason is None && r.1 == 200,
        db_error matches Some(e) ==> {
            &&& r.0.status@ == "KO"@
            &&& r.0.reason matches Some(m) && m@ == e@
            &&& r.1 == 500
        },
{
    match db_error {
        None => (Health { status: String::from_str("OK"), reason: None }, 200),
        Some(e) => (Health { status: String::from_str("KO"), reason: Some(e) }, 500),
    }
}

/// What the store supervisor does after one reconnection attempt.
#[derive(Clone, Copy, PartialEq, Eq, Structural, Debug)]
pub enum ReconnectDirective {
    /// Adopt the fresh connection and resume watching it.
    Adopt,
    /// Wait one tick and try again.
    Retry,
    /// Stop trying; the supervisor's exit is fatal to the process.
    GiveUp,
}

/// The supervisor's reconnection policy: a successful attempt is adopted;
/// a failed one is retried until the tenth in a row, which gives up.
/// Attempts are counted from 1.
pub fn reconnect_step(attempt: u32, connected: bool) -> (r: ReconnectDirective)
    ensures
        connected ==> r is Adopt,
        !connected && attempt < 10 ==> r is Retry,
        !connected && attempt >= 10 ==> r is GiveUp,
{
    if connected {
        ReconnectDirective::Adopt
    } else if attempt < 10 {
        ReconnectDirective::Retry
    } else {
        ReconnectDirective::GiveUp
    }
}

/// Payload of a request to register a newsletter subscriber.
pub struct SubscribePayload {
    /// The email of the subscriber.
    pub email: String,
}

/// Payload of a request to unregister a newsletter subscriber.
pub struct UnsubscribePayload {
    /// The unsubscribe token.
    pub token: String,
}

/// Reply sent by the ingestion endpoint, by behaviour: accepted, rejected for
/// bad credentials, or failed on the store.
#[derive(Clone, Copy, PartialEq, Eq, Structural, Debug)]
pub enum IngestReply {
    /// The whole batch was persisted.
    Accepted,
    /// The caller's credentials did not parse or did not match a property.
    Unauthorized,
    /// The store failed while checking credentials or inserting.
    ServerError,
}

/// The HTTP status code carried by each [`IngestReply`].
pub fn reply_status_code(reply: IngestReply) -> (code: u16)
    ensures
        reply is Accepted ==> code == 200,
        reply is Unauthorized ==> code == 401,
        reply is ServerError ==> code == 500,
{
    match reply {
        IngestReply::Accepted => 200,
        IngestReply::Unauthorized => 401,
        IngestReply::ServerError => 500,
    }
}

} // verus!
