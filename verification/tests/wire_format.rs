use analytics_core::access::{Access, IpAddress};
use analytics_core::wire::encode_accesses;

fn sample(date: i64, ip: Option<IpAddress>, ua: Option<&str>, referer: Option<&str>, method: &str, uri: &str) -> Access {
    Access {
        date,
        peer_addr: ip,
        user_agent: ua.map(str::to_owned),
        referer: referer.map(str::to_owned),
        method: method.to_owned(),
        uri: uri.to_owned(),
    }
}

#[test]
fn encode_empty_batch() {
    let out = encode_accesses(&vec![]);
    assert_eq!(out, "[]");
}

#[test]
fn encode_single_access() {
    let a = sample(
        1700000000,
        Some(IpAddress::V4 { a: 1, b: 2, c: 3, d: 4 }),
        Some("curl/8"),
        None,
        "GET",
        "/",
    );
    let out = encode_accesses(&vec![a]);
    assert_eq!(
        out,
        "[{\"date\":1700000000,\"peer_addr\":\"1.2.3.4\",\"user_agent\":\"curl/8\",\
         \"referer\":null,\"method\":\"GET\",\"uri\":\"/\"}]"
    );
}

#[test]
fn encode_preserves_order() {
    let a = sample(1, None, None, None, "GET", "/a");
    let b = sample(2, None, None, None, "POST", "/b");
    let out = encode_accesses(&vec![a, b]);
    assert_eq!(
        out,
        "[{\"date\":1,\"peer_addr\":null,\"user_agent\":null,\"referer\":null,\"method\":\"GET\",\"uri\":\"/a\"},\
         {\"date\":2,\"peer_addr\":null,\"user_agent\":null,\"referer\":null,\"method\":\"POST\",\"uri\":\"/b\"}]"
    );
}

#[test]
fn encode_escapes_strings() {
    let a = sample(0, None, Some("say \"hi\" \\ now"), None, "GET", "/");
    let out = encode_accesses(&vec![a]);
    assert_eq!(
        out,
        "[{\"date\":0,\"peer_addr\":null,\"user_agent\":\"say \\\"hi\\\" \\\\ now\",\
         \"referer\":null,\"method\":\"GET\",\"uri\":\"/\"}]"
    );
}

#[test]
fn encode_escapes_controls_and_unicode() {
    let a = sample(0, None, Some("a\nb\u{e9}c\u{1F600}"), None, "GET", "/");
    let out = encode_accesses(&vec![a]);
    assert_eq!(
        out,
        "[{\"date\":0,\"peer_addr\":null,\"user_agent\":\"a\\u000ab\\u00e9c\\ud83d\\ude00\",\
         \"referer\":null,\"method\":\"GET\",\"uri\":\"/\"}]"
    );
}

#[test]
fn encode_negative_date() {
    let a = sample(-7, None, None, None, "GET", "/");
    let out = encode_accesses(&vec![a]);
    assert!(out.contains("\"date\":-7"));
}

#[test]
fn encode_ipv6_address() {
    let ip = IpAddress::V6 { g0: 0x2001, g1: 0xdb8, g2: 0, g3: 0, g4: 0, g5: 0, g6: 0, g7: 1 };
    let a = sample(0, Some(ip), None, None, "GET", "/");
    let out = encode_accesses(&vec![a]);
    assert!(out.contains("\"peer_addr\":\"2001:db8:0:0:0:0:0:1\""));
}

#[test]
fn encoded_batch_is_valid_json() {
    let a = sample(
        1700000000,
        Some(IpAddress::V4 { a: 203, b: 0, c: 113, d: 7 }),
        Some("Mozilla/5.0 (X11; Linux x86_64) \"quoted\"\ttab"),
        Some("https://example.com/"),
        "PUT",
        "/x?q=1",
    );
    let out = encode_accesses(&vec![a]);
    let v: serde_json::Value = serde_json::from_str(&out).expect("encoder must emit valid JSON");
    let arr = v.as_array().unwrap();
    assert_eq!(arr.len(), 1);
    assert_eq!(arr[0]["date"], serde_json::Value::from(1700000000i64));
    assert_eq!(arr[0]["peer_addr"], serde_json::Value::from("203.0.113.7"));
    assert_eq!(
        arr[0]["user_agent"],
        serde_json::Value::from("Mozilla/5.0 (X11; Linux x86_64) \"quoted\"\ttab")
    );
    assert_eq!(arr[0]["referer"], serde_json::Value::from("https://example.com/"));
    assert_eq!(arr[0]["method"], serde_json::Value::from("PUT"));
    assert_eq!(arr[0]["uri"], serde_json::Value::from("/x?q=1"));
}

#[test]
fn access_new_rejects_empty_method_or_uri() {
    assert!(Access::new(0, None, None, None, "".to_owned(), "/".to_owned()).is_none());
    assert!(Access::new(0, None, None, None, "GET".to_owned(), "".to_owned()).is_none());
    assert!(Access::new(0, None, None, None, "GET".to_owned(), "/".to_owned()).is_some());
}

#[test]
fn encode_extreme_values() {
    let a = sample(i64::MIN, Some(IpAddress::V4 { a: 0, b: 0, c: 0, d: 0 }), None, None, "GET", "/");
    let b = sample(i64::MAX, Some(IpAddress::V4 { a: 255, b: 255, c: 255, d: 255 }), None, None, "GET", "/");
    let out = encode_accesses(&vec![a, b]);
    assert!(out.contains("\"date\":-9223372036854775808"));
    assert!(out.contains("\"peer_addr\":\"0.0.0.0\""));
    assert!(out.contains("\"date\":9223372036854775807"));
    assert!(out.contains("\"peer_addr\":\"255.255.255.255\""));
    serde_json::from_str::<serde_json::Value>(&out).unwrap();
}

#[test]
fn encode_ipv6_zero_groups() {
    let ip = IpAddress::V6 { g0: 0, g1: 0, g2: 0, g3: 0, g4: 0, g5: 0, g6: 0, g7: 0 };
    let a = sample(0, Some(ip), None, None, "GET", "/");
    let out = encode_accesses(&vec![a]);
    assert!(out.contains("\"peer_addr\":\"0:0:0:0:0:0:0:0\""));
}
