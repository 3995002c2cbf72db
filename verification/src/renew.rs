//! Hot-swappable renewable resources: a holder for a value parsed from
//! fetched bytes, renewed in place on a schedule. A successful renewal
//! swaps the new instance in; any failure — fetch, decompression or parse —
//! leaves the current instance untouched.

use vstd::prelude::*;

verus! {

/// Why a fetch of a resource failed.
#[derive(Clone, Copy, PartialEq, Eq, Structural, Debug)]
pub enum FetchError {
    /// The server replied with a status outside the 2xx range.
    Http(u16),
    /// The request could not be sent or the body not read.
    Transport,
}

/// Why a renewal failed. The current instance is kept in every case.
#[derive(Clone, Copy, PartialEq, Eq, Structural, Debug)]
pub enum RenewError {
    /// The fetch failed.
    Fetch(FetchError),
    /// The fetched bytes were not valid gzip data.
    Decompress,
    /// The resource could not be parsed from the data.
    Parse,
}

/// Classifies a fetch response: the body on a 2xx status, the status as an
/// error otherwise.
pub fn fetch_outcome(status: u16, body: Vec<u8>) -> (r: Result<Vec<u8>, FetchError>)
    ensures
        200 <= status < 300 ==> (r matches Ok(b) && b@ == body@),
        !(200 <= status < 300) ==> r == Err::<Vec<u8>, FetchError>(FetchError::Http(status)),
{
    if 200 <= status && status < 300 {
        Ok(body)
    } else {
        Err(FetchError::Http(status))
    }
}

/// What gzip decompression yields on the given bytes, when they form a
/// valid gzip stream.
pub uninterp spec fn gunzip(data: Seq<u8>) -> Option<Seq<u8>>;

/// Relies on flate2's `GzDecoder` (read through `Read::read_to_end`):
/// gzip decompression, whose outcome depends on the input bytes alone.
#[verifier::external_body]
fn gunzip_bytes(data: &Vec<u8>) -> (r: Option<Vec<u8>>)
    ensures
        r matches Some(out) ==> gunzip(data@) == Some(out@),
        r is Some <==> gunzip(data@) is Some,
{
    let mut decoder = flate2::read::GzDecoder::new(data.as_slice());
    let mut out = Vec::new();
    match std::io::Read::read_to_end(&mut decoder, &mut out) {
        Ok(_) => Some(out),
        Err(_) => None,
    }
}

/// A resource that can be constructed from fetched bytes and periodically
/// renewed. Implemented by the users of the holder for each backing
/// resource (a geo-IP database, a user-agent rule set). The holder reports
/// any failure of this construction as the parse step's failure.
pub trait Renewable: Sized {
    /// Parses a new instance from the given data.
    fn new(data: Vec<u8>) -> Result<Self, RenewError>;
}

/// Information allowing to retrieve a resource.
pub struct RenewableInfo {
    /// The URL to fetch the resource's data from.
    pub url: String,
    /// Optional basic-auth pair.
    pub auth: Option<(String, String)>,
    /// Whether the fetched data is gzip-compressed.
    pub compressed: bool,
}

/// The bytes handed to the parser: the fetched body as is, or gunzipped
/// when the descriptor marks the resource compressed.
pub fn prepare_payload(fetched: Result<Vec<u8>, FetchError>, compressed: bool) -> (r: Result<
    Vec<u8>,
    RenewError,
>)
    ensures
        fetched matches Err(e) ==> r == Err::<Vec<u8>, RenewError>(RenewError::Fetch(e)),
        fetched matches Ok(b) ==> {
            &&& !compressed ==> (r matches Ok(out) && out@ == b@)
            &&& compressed ==> match gunzip(b@) {
                Some(o) => (r matches Ok(out) && out@ == o),
                None => r == Err::<Vec<u8>, RenewError>(RenewError::Decompress),
            }
        },
{
    match fetched {
        Err(e) => Err(RenewError::Fetch(e)),
        Ok(body) => {
            if compressed {
                match gunzip_bytes(&body) {
                    Some(out) => Ok(out),
                    None => Err(RenewError::Decompress),
                }
            } else {
                Ok(body)
            }
        }
    }
}

/// The instance a renewal attempt leaves in place: the candidate when the
/// attempt succeeded, the current instance otherwise.
pub open spec fn renew_outcome<T>(current: T, candidate: Result<T, RenewError>) -> T {
    match candidate {
        Ok(t) => t,
        Err(_) => current,
    }
}

/// Wrapper allowing to renew the underlying resource.
pub struct Renewer<T> {
    /// The descriptor used to refetch the resource.
    pub info: RenewableInfo,
    /// The current instance.
    pub inner: T,
}

impl<T: Renewable> Renewer<T> {
    /// Creates the holder from its descriptor and the first fetch's
    /// outcome: decompress if required, parse, store. Each step's failure
    /// comes back as that step's error; success is possible only once the
    /// fetch — and, for a compressed resource, the gzip decode — went
    /// through, and then hinges on the parse alone.
    pub fn new(info: RenewableInfo, fetched: Result<Vec<u8>, FetchError>) -> (r: Result<
        Self,
        RenewError,
    >)
        ensures
            r matches Ok(ren) ==> ren.info == info,
            fetched matches Err(e) ==> (r matches Err(re) && re == RenewError::Fetch(e)),
            fetched matches Ok(b) ==> {
                &&& (info.compressed && gunzip(b@) is None) ==> (r matches Err(re) && re
                    == RenewError::Decompress)
                &&& (!info.compressed || gunzip(b@) is Some) ==> (r is Ok || (r matches Err(re)
                    && re == RenewError::Parse))
            },
            r is Ok ==> fetched is Ok,
            (r is Ok && info.compressed) ==> (fetched matches Ok(b) && gunzip(b@) is Some),
    {
        let data = match prepare_payload(fetched, info.compressed) {
            Ok(d) => d,
            Err(e) => {
                return Err(e);
            }
        };
        match T::new(data) {
            Ok(inner) => Ok(Renewer { info, inner }),
            Err(_) => Err(RenewError::Parse),
        }
    }

    /// Installs the outcome of a renewal attempt: a successful attempt
    /// swaps the new instance in; a failed one leaves the holder untouched
    /// and hands the error back.
    pub fn renew_with(&mut self, candidate: Result<T, RenewError>) -> (r: Result<(), RenewError>)
        ensures
            final(self).inner == renew_outcome(old(self).inner, candidate),
            final(self).info == old(self).info,
            candidate matches Ok(_) ==> r is Ok,
            candidate matches Err(e) ==> (r == Err::<(), RenewError>(e) && final(self).inner
                == old(self).inner),
    {
        match candidate {
            Ok(t) => {
                self.inner = t;
                Ok(())
            }
            Err(e) => Err(e),
        }
    }

    /// One whole renewal from a fetch outcome: prepare the payload, parse
    /// it, swap on success. On any failure the current instance stays and
    /// the failing step names itself: the fetch's error as is, a failed
    /// gzip decode as the decompression error, and anything the parse
    /// refused as the parse error. Success is possible only once the fetch
    /// — and, for a compressed resource, the gzip decode — went through,
    /// and then hinges on the parse alone.
    pub fn renew(&mut self, fetched: Result<Vec<u8>, FetchError>) -> (r: Result<(), RenewError>)
        ensures
            final(self).info == old(self).info,
            r is Err ==> final(self).inner == old(self).inner,
            fetched matches Err(e) ==> r == Err::<(), RenewError>(RenewError::Fetch(e)),
            fetched matches Ok(b) ==> {
                &&& (old(self).info.compressed && gunzip(b@) is None) ==> r == Err::<
                    (),
                    RenewError,
                >(RenewError::Decompress)
                &&& (!old(self).info.compressed || gunzip(b@) is Some) ==> (r is Ok || r == Err::<
                    (),
                    RenewError,
                >(RenewError::Parse))
            },
            r is Ok ==> fetched is Ok,
            (r is Ok && old(self).info.compressed) ==> (fetched matches Ok(b) && gunzip(b@)
                is Some),
    {
        let compressed = self.info.compressed;
        let candidate: Result<T, RenewError> = match prepare_payload(fetched, compressed) {
            Ok(data) => match T::new(data) {
                Ok(t) => Ok(t),
                Err(_) => Err(RenewError::Parse),
            },
            Err(e) => Err(e),
        };
        self.renew_with(candidate)
    }

    /// Shared read access to the current instance.
    pub fn lock(&self) -> (r: &T)
        ensures
            r == &self.inner,
    {
        &self.inner
    }
}

/// After a successful renewal every later read observes the new instance;
/// after a failed one every later read observes the prior instance,
/// unchanged.
pub proof fn lemma_renew_visibility<T>(current: T, candidate: Result<T, RenewError>)
    ensures
        candidate matches Ok(t) ==> renew_outcome(current, candidate) == t,
        candidate matches Err(_) ==> renew_outcome(current, candidate) == current,
{
}

} // verus!
