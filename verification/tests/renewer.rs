use std::io::Write;

use analytics_core::renew::{
    fetch_outcome, prepare_payload, FetchError, Renewable, RenewableInfo, Renewer, RenewError,
};

/// A resource parsed from fetched bytes: here, just the bytes themselves,
/// rejecting empty data.
struct RuleSet {
    data: Vec<u8>,
}

impl Renewable for RuleSet {
    fn new(data: Vec<u8>) -> Result<Self, RenewError> {
        if data.is_empty() {
            Err(RenewError::Parse)
        } else {
            Ok(RuleSet { data })
        }
    }
}

fn info(compressed: bool) -> RenewableInfo {
    RenewableInfo {
        url: "https://resources.example/rules".to_owned(),
        auth: Some(("user".to_owned(), "pass".to_owned())),
        compressed,
    }
}

fn gzip(data: &[u8]) -> Vec<u8> {
    let mut enc = flate2::write::GzEncoder::new(Vec::new(), flate2::Compression::default());
    enc.write_all(data).unwrap();
    enc.finish().unwrap()
}

#[test]
fn fetch_outcome_accepts_2xx_only() {
    assert_eq!(fetch_outcome(200, vec![1, 2]), Ok(vec![1, 2]));
    assert_eq!(fetch_outcome(204, vec![]), Ok(vec![]));
    assert_eq!(fetch_outcome(301, vec![7]), Err(FetchError::Http(301)));
    assert_eq!(fetch_outcome(404, vec![]), Err(FetchError::Http(404)));
    assert_eq!(fetch_outcome(500, vec![]), Err(FetchError::Http(500)));
    assert_eq!(fetch_outcome(199, vec![]), Err(FetchError::Http(199)));
}

#[test]
fn prepare_payload_passes_plain_bytes_through() {
    let r = prepare_payload(Ok(vec![9, 8, 7]), false);
    assert_eq!(r, Ok(vec![9, 8, 7]));
}

#[test]
fn prepare_payload_propagates_fetch_error() {
    let r = prepare_payload(Err(FetchError::Transport), false);
    assert_eq!(r, Err(RenewError::Fetch(FetchError::Transport)));
    let r = prepare_payload(Err(FetchError::Http(503)), true);
    assert_eq!(r, Err(RenewError::Fetch(FetchError::Http(503))));
}

#[test]
fn prepare_payload_gunzips_compressed_data() {
    let original = b"city rules v2".to_vec();
    let r = prepare_payload(Ok(gzip(&original)), true);
    assert_eq!(r, Ok(original));
}

#[test]
fn prepare_payload_rejects_corrupt_gzip() {
    let r = prepare_payload(Ok(vec![0, 1, 2, 3]), true);
    assert_eq!(r, Err(RenewError::Decompress));
}

#[test]
fn renewer_construction_parses_fetched_bytes() {
    let ren: Renewer<RuleSet> = Renewer::new(info(false), Ok(b"v1".to_vec())).unwrap();
    assert_eq!(ren.lock().data, b"v1".to_vec());
    let err = Renewer::<RuleSet>::new(info(false), Err(FetchError::Transport)).err().unwrap();
    assert_eq!(err, RenewError::Fetch(FetchError::Transport));
}

#[test]
fn renewer_construction_reads_compressed_resources() {
    let ren: Renewer<RuleSet> = Renewer::new(info(true), Ok(gzip(b"v1"))).unwrap();
    assert_eq!(ren.lock().data, b"v1".to_vec());
}

#[test]
fn successful_renew_swaps_instance() {
    let mut ren: Renewer<RuleSet> = Renewer::new(info(false), Ok(b"v1".to_vec())).unwrap();
    let r = ren.renew(Ok(b"v2".to_vec()));
    assert!(r.is_ok());
    assert_eq!(ren.lock().data, b"v2".to_vec());
}

#[test]
fn failed_renew_keeps_prior_instance() {
    let mut ren: Renewer<RuleSet> = Renewer::new(info(false), Ok(b"v1".to_vec())).unwrap();
    // A failed fetch keeps the instance.
    let r = ren.renew(Err(FetchError::Http(500)));
    assert_eq!(r, Err(RenewError::Fetch(FetchError::Http(500))));
    assert_eq!(ren.lock().data, b"v1".to_vec());
    // A failed parse keeps the instance too.
    let r = ren.renew(Ok(Vec::new()));
    assert_eq!(r, Err(RenewError::Parse));
    assert_eq!(ren.lock().data, b"v1".to_vec());
}
