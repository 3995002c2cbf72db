use analytics_core::enrich::{
    device_to_json, geolocation_to_json, pick_city_name, UserDevice, UserGeolocation,
};
use analytics_core::util::validate_email;
use analytics_core::{health_report, robots, reconnect_step, ReconnectDirective};

#[test]
fn accepts_ordinary_addresses() {
    assert!(validate_email("a@b.c"));
    assert!(validate_email("user.name+tag@example-domain.com"));
    assert!(validate_email("x_y{z}@sub.example.org"));
    assert!(validate_email("digits123@d123.e"));
}

#[test]
fn rejects_malformed_addresses() {
    assert!(!validate_email(""));
    assert!(!validate_email("plainaddress"));
    assert!(!validate_email("@example.com"));
    assert!(!validate_email("a@"));
    assert!(!validate_email("a@.example"));
    assert!(!validate_email("a@example."));
    assert!(!validate_email("a@exa..mple"));
    assert!(!validate_email("a b@example.com"));
    assert!(!validate_email("a@b@c.com"));
    assert!(!validate_email("a@under_score.com"));
}

#[test]
fn health_report_reflects_store_state() {
    let (health, code) = health_report(None);
    assert_eq!(health.status, "OK");
    assert!(health.reason.is_none());
    assert_eq!(code, 200);
    let (health, code) = health_report(Some("connection refused".to_owned()));
    assert_eq!(health.status, "KO");
    assert_eq!(health.reason.as_deref(), Some("connection refused"));
    assert_eq!(code, 500);
}

#[test]
fn robots_names_the_host() {
    let out = robots("blog.example.org");
    assert_eq!(
        out,
        "User-agent: *\nAllow: /\nSitemap: https://blog.example.org/sitemap.xml\n"
    );
}

#[test]
fn city_name_prefers_english() {
    let names = vec![
        ("de".to_owned(), "Muenchen".to_owned()),
        ("en".to_owned(), "Munich".to_owned()),
        ("fr".to_owned(), "Munich FR".to_owned()),
    ];
    assert_eq!(pick_city_name(&names).as_deref(), Some("Munich"));
}

#[test]
fn city_name_falls_back_to_first() {
    let names = vec![
        ("de".to_owned(), "Muenchen".to_owned()),
        ("fr".to_owned(), "Munich FR".to_owned()),
    ];
    assert_eq!(pick_city_name(&names).as_deref(), Some("Muenchen"));
    assert_eq!(pick_city_name(&vec![]), None);
}

#[test]
fn device_json_is_exact() {
    let device = UserDevice {
        device_family: "Other".to_owned(),
        device_brand: None,
        device_model: None,
        os_family: "Linux".to_owned(),
        os_major: Some("6".to_owned()),
        os_minor: None,
        os_patch: None,
        os_patch_minor: None,
        agent_family: "Firefox".to_owned(),
        agent_major: Some("126".to_owned()),
        agent_minor: Some("0".to_owned()),
    };
    let out = device_to_json(&device);
    assert_eq!(
        out,
        "{\"device_family\":\"Other\",\"device_brand\":null,\"device_model\":null,\
         \"os_family\":\"Linux\",\"os_major\":\"6\",\"os_minor\":null,\"os_patch\":null,\
         \"os_patch_minor\":null,\"agent_family\":\"Firefox\",\"agent_major\":\"126\",\
         \"agent_minor\":\"0\"}"
    );
    let v: serde_json::Value = serde_json::from_str(&out).unwrap();
    assert_eq!(v["agent_family"], serde_json::Value::from("Firefox"));
}

#[test]
fn geolocation_json_keeps_well_formed_coordinates() {
    let geolocation = UserGeolocation {
        city: Some("Mountain View".to_owned()),
        continent: Some("NA".to_owned()),
        country: Some("US".to_owned()),
        latitude: Some("37.751".to_owned()),
        longitude: Some("-97.822".to_owned()),
        accuracy_radius: Some(1000),
        time_zone: Some("America/Chicago".to_owned()),
    };
    let out = geolocation_to_json(&geolocation);
    assert_eq!(
        out,
        "{\"city\":\"Mountain View\",\"continent\":\"NA\",\"country\":\"US\",\
         \"latitude\":37.751,\"longitude\":-97.822,\"accuracy_radius\":1000,\
         \"time_zone\":\"America/Chicago\"}"
    );
    let v: serde_json::Value = serde_json::from_str(&out).unwrap();
    assert_eq!(v["country"], serde_json::Value::from("US"));
    assert_eq!(v["latitude"], serde_json::Value::from(37.751f64));
}

#[test]
fn geolocation_json_nulls_malformed_coordinates() {
    let geolocation = UserGeolocation {
        city: None,
        continent: None,
        country: None,
        latitude: Some("01.5".to_owned()),
        longitude: Some("not a number".to_owned()),
        accuracy_radius: None,
        time_zone: None,
    };
    let out = geolocation_to_json(&geolocation);
    assert_eq!(
        out,
        "{\"city\":null,\"continent\":null,\"country\":null,\"latitude\":null,\
         \"longitude\":null,\"accuracy_radius\":null,\"time_zone\":null}"
    );
    serde_json::from_str::<serde_json::Value>(&out).unwrap();
}

#[test]
fn coordinate_grammar_cases() {
    // Accepted and rejected coordinate texts, observed through the JSON.
    let case = |lat: &str| {
        let geolocation = UserGeolocation {
            city: None,
            continent: None,
            country: None,
            latitude: Some(lat.to_owned()),
            longitude: None,
            accuracy_radius: None,
            time_zone: None,
        };
        geolocation_to_json(&geolocation)
    };
    assert!(case("0").contains("\"latitude\":0,"));
    assert!(case("-180").contains("\"latitude\":-180,"));
    assert!(case("37.0").contains("\"latitude\":37.0,"));
    assert!(case("37.").contains("\"latitude\":null,"));
    assert!(case(".5").contains("\"latitude\":null,"));
    assert!(case("-").contains("\"latitude\":null,"));
    assert!(case("00.5").contains("\"latitude\":null,"));
    assert!(case("1.2.3").contains("\"latitude\":null,"));
}

#[test]
fn rejects_addresses_with_exotic_characters() {
    assert!(!validate_email("caf\u{e9}@example.com"));
    assert!(!validate_email("user@exa mple.com"));
    assert!(validate_email("ok-dash@e-x.a-b"));
}

#[test]
fn reconnect_policy_gives_up_after_ten() {
    assert_eq!(reconnect_step(1, true), ReconnectDirective::Adopt);
    assert_eq!(reconnect_step(10, true), ReconnectDirective::Adopt);
    assert_eq!(reconnect_step(1, false), ReconnectDirective::Retry);
    assert_eq!(reconnect_step(9, false), ReconnectDirective::Retry);
    assert_eq!(reconnect_step(10, false), ReconnectDirective::GiveUp);
}
