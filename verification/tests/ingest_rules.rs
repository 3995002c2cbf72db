use analytics_core::access::{Access, IpAddress};
use analytics_core::anonymize::{anonymize_rows, RETENTION_SECONDS};
use analytics_core::enrich::{UserDevice, UserGeolocation};
use analytics_core::ingest::{
    build_rows, ingest_reply, parse_credentials, AnalyticsRow, AnalyticsTable, StoreError,
    UuidValue,
};
use analytics_core::reply_status_code;
use analytics_core::IngestReply;

fn property() -> UuidValue {
    UuidValue { hi: 0xa1a2a3a4b1b2c1c2, lo: 0xd1d2d3d4d5d6d7d8 }
}

fn access(date: i64, ip: Option<IpAddress>, ua: Option<&str>) -> Access {
    Access {
        date,
        peer_addr: ip,
        user_agent: ua.map(str::to_owned),
        referer: None,
        method: "GET".to_owned(),
        uri: "/".to_owned(),
    }
}

fn us_geolocation() -> UserGeolocation {
    UserGeolocation {
        city: Some("Mountain View".to_owned()),
        continent: Some("NA".to_owned()),
        country: Some("US".to_owned()),
        latitude: Some("37.751".to_owned()),
        longitude: Some("-97.822".to_owned()),
        accuracy_radius: Some(1000),
        time_zone: Some("America/Chicago".to_owned()),
    }
}

fn firefox_device() -> UserDevice {
    UserDevice {
        device_family: "Other".to_owned(),
        device_brand: None,
        device_model: None,
        os_family: "Linux".to_owned(),
        os_major: None,
        os_minor: None,
        os_patch: None,
        os_patch_minor: None,
        agent_family: "Firefox".to_owned(),
        agent_major: Some("126".to_owned()),
        agent_minor: Some("0".to_owned()),
    }
}

fn row(date: i64) -> AnalyticsRow {
    AnalyticsRow {
        property: property(),
        date,
        peer_addr: Some(IpAddress::V4 { a: 1, b: 1, c: 1, d: 1 }),
        user_agent: Some("x".to_owned()),
        referer: None,
        geolocation: None,
        device: None,
        method: "GET".to_owned(),
        uri: "/".to_owned(),
    }
}

#[test]
fn credentials_parse_to_uuid_halves() {
    let r = parse_credentials(
        "a1a2a3a4-b1b2-c1c2-d1d2-d3d4d5d6d7d8",
        Some("00000000-0000-0000-0000-000000000001"),
    );
    let (user, secret) = r.expect("both sides are UUIDs");
    assert_eq!(user, property());
    assert_eq!(secret, UuidValue { hi: 0, lo: 1 });
}

#[test]
fn credentials_reject_non_uuids() {
    assert!(parse_credentials("not-a-uuid", Some("also-not")).is_none());
    assert!(parse_credentials("a1a2a3a4-b1b2-c1c2-d1d2-d3d4d5d6d7d8", Some("also-not")).is_none());
    assert!(parse_credentials("not-a-uuid", Some("00000000-0000-0000-0000-000000000001")).is_none());
    assert!(parse_credentials("a1a2a3a4-b1b2-c1c2-d1d2-d3d4d5d6d7d8", None).is_none());
}

#[test]
fn unparseable_credentials_get_401() {
    let reply = ingest_reply(None, None, None);
    assert_eq!(reply, IngestReply::Unauthorized);
    assert_eq!(reply_status_code(reply), 401);
}

#[test]
fn unknown_property_gets_401() {
    let creds = Some((property(), UuidValue { hi: 0, lo: 1 }));
    let reply = ingest_reply(creds, Some(Ok(false)), None);
    assert_eq!(reply_status_code(reply), 401);
}

#[test]
fn store_failure_gets_500() {
    let creds = Some((property(), UuidValue { hi: 0, lo: 1 }));
    let reply = ingest_reply(creds, Some(Err(StoreError)), None);
    assert_eq!(reply_status_code(reply), 500);
    let reply = ingest_reply(creds, Some(Ok(true)), Some(false));
    assert_eq!(reply_status_code(reply), 500);
}

#[test]
fn full_success_gets_200() {
    let creds = Some((property(), UuidValue { hi: 0, lo: 1 }));
    let reply = ingest_reply(creds, Some(Ok(true)), Some(true));
    assert_eq!(reply, IngestReply::Accepted);
    assert_eq!(reply_status_code(reply), 200);
}

#[test]
fn enrichment_fills_row_columns() {
    let ip = IpAddress::V4 { a: 8, b: 8, c: 8, d: 8 };
    let a = access(1700000000, Some(ip), Some("Mozilla/5.0 (X11; Linux x86_64; rv:126.0) Gecko/20100101 Firefox/126.0"));
    let rows = build_rows(
        property(),
        vec![a],
        vec![Some(us_geolocation())],
        vec![Some(firefox_device())],
    );
    assert_eq!(rows.len(), 1);
    let row = &rows[0];
    assert_eq!(row.property, property());
    assert_eq!(row.date, 1700000000);
    assert_eq!(row.peer_addr, Some(ip));
    let geolocation = row.geolocation.as_ref().expect("geolocation enriched");
    assert_eq!(geolocation.country.as_deref(), Some("US"));
    let device = row.device.as_ref().expect("device enriched");
    assert_eq!(device.agent_family, "Firefox");
}

#[test]
fn missing_lookups_leave_columns_null() {
    let a = access(5, None, None);
    let rows = build_rows(property(), vec![a], vec![None], vec![None]);
    assert_eq!(rows.len(), 1);
    assert!(rows[0].geolocation.is_none());
    assert!(rows[0].device.is_none());
    assert!(rows[0].peer_addr.is_none());
}

#[test]
fn duplicate_insert_is_ignored() {
    let mut table = AnalyticsTable::new();
    table.insert(row(1));
    table.insert(row(1));
    assert_eq!(table.len(), 1);
    table.insert(row(2));
    assert_eq!(table.len(), 2);
}

#[test]
fn retried_batch_adds_no_rows() {
    let mut table = AnalyticsTable::new();
    let batch = || vec![row(1), row(2), row(3)];
    table.insert_batch(batch());
    assert_eq!(table.len(), 3);
    // The client re-sends the exact same batch after a 500.
    table.insert_batch(batch());
    assert_eq!(table.len(), 3);
}

#[test]
fn anonymization_nulls_old_rows_only() {
    let now: i64 = 1700000000;
    let old = row(now - 400 * 86400);
    let recent = row(now - 10 * 86400);
    let rows = anonymize_rows(vec![old, recent], now);
    assert_eq!(rows.len(), 2);
    assert!(rows[0].peer_addr.is_none());
    assert!(rows[0].user_agent.is_none());
    assert_eq!(rows[0].method, "GET");
    assert_eq!(rows[1].peer_addr, Some(IpAddress::V4 { a: 1, b: 1, c: 1, d: 1 }));
    assert_eq!(rows[1].user_agent.as_deref(), Some("x"));
}

#[test]
fn anonymization_boundary_is_inclusive() {
    let now: i64 = 1700000000;
    let at_boundary = row(now - RETENTION_SECONDS);
    let just_inside = row(now - RETENTION_SECONDS + 1);
    let rows = anonymize_rows(vec![at_boundary, just_inside], now);
    assert!(rows[0].peer_addr.is_none());
    assert!(rows[1].peer_addr.is_some());
}

#[test]
fn credentials_accept_other_uuid_spellings() {
    // The parser takes every spelling the UUID parser itself takes.
    let simple = parse_credentials(
        "a1a2a3a4b1b2c1c2d1d2d3d4d5d6d7d8",
        Some("urn:uuid:00000000-0000-0000-0000-000000000001"),
    );
    let (user, secret) = simple.expect("simple and urn forms parse");
    assert_eq!(user, property());
    assert_eq!(secret, UuidValue { hi: 0, lo: 1 });
}
