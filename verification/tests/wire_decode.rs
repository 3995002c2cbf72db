use analytics_core::access::{Access, IpAddress};
use analytics_core::decode::decode_accesses;
use analytics_core::wire::encode_accesses;

fn sample(date: i64, ip: Option<IpAddress>, ua: Option<&str>, referer: Option<&str>, uri: &str) -> Access {
    Access {
        date,
        peer_addr: ip,
        user_agent: ua.map(str::to_owned),
        referer: referer.map(str::to_owned),
        method: "GET".to_owned(),
        uri: uri.to_owned(),
    }
}

fn assert_round_trip(batch: Vec<Access>) {
    let encoded = encode_accesses(&batch);
    let decoded = decode_accesses(&encoded).expect("canonical text must decode");
    // The decoder's contract: what comes back re-encodes to the input.
    assert_eq!(encode_accesses(&decoded), encoded);
    assert_eq!(decoded.len(), batch.len());
    for (d, b) in decoded.iter().zip(batch.iter()) {
        assert_eq!(d.date, b.date);
        assert_eq!(d.peer_addr, b.peer_addr);
        assert_eq!(d.user_agent, b.user_agent);
        assert_eq!(d.referer, b.referer);
        assert_eq!(d.method, b.method);
        assert_eq!(d.uri, b.uri);
    }
}

#[test]
fn decode_empty_batch() {
    let decoded = decode_accesses("[]").unwrap();
    assert!(decoded.is_empty());
}

#[test]
fn round_trip_plain_records() {
    assert_round_trip(vec![
        sample(1700000000, Some(IpAddress::V4 { a: 1, b: 2, c: 3, d: 4 }), Some("curl/8"), None, "/"),
        sample(-7, None, None, Some("https://example.com/"), "/x?q=1"),
    ]);
}

#[test]
fn round_trip_escaped_strings() {
    assert_round_trip(vec![sample(
        0,
        None,
        Some("say \"hi\" \\ now\twith\ntabs \u{e9} \u{1F600}"),
        None,
        "/",
    )]);
}

#[test]
fn round_trip_ipv6() {
    let ip = IpAddress::V6 { g0: 0x2001, g1: 0xdb8, g2: 0, g3: 0, g4: 0xffff, g5: 1, g6: 0xabc, g7: 1 };
    assert_round_trip(vec![sample(42, Some(ip), None, None, "/v6")]);
}

#[test]
fn round_trip_extreme_dates() {
    assert_round_trip(vec![
        sample(i64::MIN, None, None, None, "/"),
        sample(i64::MAX, None, None, None, "/"),
        sample(0, None, None, None, "/"),
    ]);
}

#[test]
fn rejects_malformed_text() {
    assert!(decode_accesses("").is_none());
    assert!(decode_accesses("[").is_none());
    assert!(decode_accesses("{}").is_none());
    assert!(decode_accesses("[{}]").is_none());
    assert!(decode_accesses("[{\"date\":1}]").is_none());
    assert!(decode_accesses("[]extra").is_none());
}

#[test]
fn rejects_non_canonical_text() {
    // Valid JSON for the same record, but not the canonical wire text.
    let canonical = "[{\"date\":1,\"peer_addr\":null,\"user_agent\":null,\"referer\":null,\"method\":\"GET\",\"uri\":\"/\"}]";
    assert!(decode_accesses(canonical).is_some());
    // Whitespace between tokens.
    assert!(decode_accesses("[ {\"date\":1,\"peer_addr\":null,\"user_agent\":null,\"referer\":null,\"method\":\"GET\",\"uri\":\"/\"} ]").is_none());
    // An escape the encoder would not produce.
    let escaped = canonical.replace("\"GET\"", "\"\\u0047ET\"");
    assert!(decode_accesses(&escaped).is_none());
    // A leading zero in the address.
    let ip = canonical.replace("null,\"user_agent\"", "\"01.2.3.4\",\"user_agent\"");
    assert!(decode_accesses(&ip).is_none());
}

#[test]
fn rejects_empty_method_or_uri() {
    // The record invariant holds through the decoder: an empty method or
    // request-target is refused even in otherwise canonical text.
    let empty_method = "[{\"date\":1,\"peer_addr\":null,\"user_agent\":null,\"referer\":null,\"method\":\"\",\"uri\":\"/\"}]";
    let empty_uri = "[{\"date\":1,\"peer_addr\":null,\"user_agent\":null,\"referer\":null,\"method\":\"GET\",\"uri\":\"\"}]";
    assert!(decode_accesses(empty_method).is_none());
    assert!(decode_accesses(empty_uri).is_none());
}
