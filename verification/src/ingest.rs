//! Server-side ingestion: authentication of the calling property, the
//! enrichment of each access record into an analytics row, and the
//! conflict-ignoring insert semantics of the store.

use vstd::prelude::*;
use crate::access::{Access, AccessView, IpAddress, view_of_opt_string};
use crate::enrich::{
    device_eq, geolocation_eq, opt_string_eq, DeviceView, GeoView, UserDevice, UserGeolocation,
};
use crate::IngestReply;

verus! {

/// A UUID as two plain 64-bit halves, most significant first.
#[derive(Clone, Copy, PartialEq, Eq, Structural, Debug, Hash)]
pub struct UuidValue {
    pub hi: u64,
    pub lo: u64,
}

/// What parsing a string as a UUID yields, when it parses.
pub uninterp spec fn uuid_parse(s: Seq<char>) -> Option<(u64, u64)>;

/// Relies on `uuid::Uuid::parse_str` (read through `as_u64_pair`): whether
/// a string parses as a UUID, and as which value, depends on its
/// characters alone.
#[verifier::external_body]
fn parse_uuid_str(s: &str) -> (r: Option<(u64, u64)>)
    ensures
        r == uuid_parse(s@),
{
    match uuid::Uuid::parse_str(s) {
        Ok(u) => Some(u.as_u64_pair()),
        Err(_) => None,
    }
}

/// Parses the basic-auth pair as the two UUIDs the endpoint requires. The
/// secret may be absent from the header; that never authenticates.
pub fn parse_credentials(user: &str, secret: Option<&str>) -> (r: Option<(UuidValue, UuidValue)>)
    ensures
        match r {
            Some(c) => {
                &&& uuid_parse(user@) == Some((c.0.hi, c.0.lo))
                &&& secret matches Some(s) && uuid_parse(s@) == Some((c.1.hi, c.1.lo))
            },
            None => uuid_parse(user@) is None || secret is None || (secret matches Some(s)
                && uuid_parse(s@) is None),
        },
{
    let parsed_user = match parse_uuid_str(user) {
        Some(p) => p,
        None => {
            return None;
        }
    };
    let parsed_secret = match secret {
        Some(s) => match parse_uuid_str(s) {
            Some(p) => p,
            None => {
                return None;
            }
        },
        None => {
            return None;
        }
    };
    Some(
        (
            UuidValue { hi: parsed_user.0, lo: parsed_user.1 },
            UuidValue { hi: parsed_secret.0, lo: parsed_secret.1 },
        ),
    )
}

/// The store failed while answering a query.
#[derive(Clone, Copy, PartialEq, Eq, Structural, Debug)]
pub struct StoreError;

/// The whole decision of the ingestion endpoint: unparseable credentials
/// are rejected without consulting the store; an unknown property is
/// rejected the same way; a store failure on the lookup or on any insert
/// is a server error; only a fully inserted batch is accepted.
///
/// `check` is the property lookup's outcome, made only when the
/// credentials parsed; `inserts_ok` reports whether every insert
/// succeeded, attempted only for an authenticated caller.
pub fn ingest_reply(
    credentials: Option<(UuidValue, UuidValue)>,
    check: Option<Result<bool, StoreError>>,
    inserts_ok: Option<bool>,
) -> (r: IngestReply)
    requires
        credentials is Some <==> check is Some,
        check == Some(Ok::<bool, StoreError>(true)) <==> inserts_ok is Some,
    ensures
        credentials is None ==> r is Unauthorized,
        check == Some(Ok::<bool, StoreError>(false)) ==> r is Unauthorized,
        check matches Some(Err(_)) ==> r is ServerError,
        inserts_ok == Some(true) ==> r is Accepted,
        inserts_ok == Some(false) ==> r is ServerError,
{
    if credentials.is_none() {
        return IngestReply::Unauthorized;
    }
    match check {
        Some(Ok(true)) => match inserts_ok {
            Some(true) => IngestReply::Accepted,
            _ => IngestReply::ServerError,
        },
        Some(Ok(false)) => IngestReply::Unauthorized,
        _ => IngestReply::ServerError,
    }
}

/// One persisted analytics row: an access record enriched with structured
/// geolocation and device data, owned by a property.
#[derive(Clone, Debug)]
pub struct AnalyticsRow {
    pub property: UuidValue,
    pub date: i64,
    pub peer_addr: Option<IpAddress>,
    pub user_agent: Option<String>,
    pub referer: Option<String>,
    pub geolocation: Option<UserGeolocation>,
    pub device: Option<UserDevice>,
    pub method: String,
    pub uri: String,
}

/// The mathematical value of an [`AnalyticsRow`].
pub struct RowView {
    pub property: UuidValue,
    pub date: int,
    pub peer_addr: Option<IpAddress>,
    pub user_agent: Option<Seq<char>>,
    pub referer: Option<Seq<char>>,
    pub geolocation: Option<GeoView>,
    pub device: Option<DeviceView>,
    pub method: Seq<char>,
    pub uri: Seq<char>,
}

pub open spec fn view_of_opt_geo(g: Option<UserGeolocation>) -> Option<GeoView> {
    match g {
        Some(v) => Some(v@),
        None => None,
    }
}

pub open spec fn view_of_opt_device(d: Option<UserDevice>) -> Option<DeviceView> {
    match d {
        Some(v) => Some(v@),
        None => None,
    }
}

impl View for AnalyticsRow {
    type V = RowView;

    open spec fn view(&self) -> RowView {
        RowView {
            property: self.property,
            date: self.date as int,
            peer_addr: self.peer_addr,
            user_agent: view_of_opt_string(self.user_agent),
            referer: view_of_opt_string(self.referer),
            geolocation: view_of_opt_geo(self.geolocation),
            device: view_of_opt_device(self.device),
            method: self.method@,
            uri: self.uri@,
        }
    }
}

/// The row an access record becomes for the given property, with the
/// enrichment the lookups produced.
pub open spec fn enriched_row(
    property: UuidValue,
    a: AccessView,
    geolocation: Option<GeoView>,
    device: Option<DeviceView>,
) -> RowView {
    RowView {
        property,
        date: a.date,
        peer_addr: a.peer_addr,
        user_agent: a.user_agent,
        referer: a.referer,
        geolocation,
        device,
        method: a.method,
        uri: a.uri,
    }
}

/// Builds the row persisted for one access record.
pub fn enrich_access(
    property: UuidValue,
    access: Access,
    geolocation: Option<UserGeolocation>,
    device: Option<UserDevice>,
) -> (r: AnalyticsRow)
    ensures
        r@ == enriched_row(property, access@, view_of_opt_geo(geolocation), view_of_opt_device(device)),
{
    AnalyticsRow {
        property,
        date: access.date,
        peer_addr: access.peer_addr,
        user_agent: access.user_agent,
        referer: access.referer,
        geolocation,
        device,
        method: access.method,
        uri: access.uri,
    }
}

/// Builds, in order, the rows persisted for a batch: each access record
/// paired with the enrichment its own lookups produced. Geolocation may
/// be present only where the record carried a peer address; a device
/// descriptor is present exactly where it carried a user agent.
pub fn build_rows(
    property: UuidValue,
    accesses: Vec<Access>,
    geolocations: Vec<Option<UserGeolocation>>,
    devices: Vec<Option<UserDevice>>,
) -> (r: Vec<AnalyticsRow>)
    requires
        accesses@.len() == geolocations@.len(),
        accesses@.len() == devices@.len(),
        forall|i: int| 0 <= i < accesses@.len() && geolocations@[i] is Some
            ==> accesses@[i]@.peer_addr is Some,
        forall|i: int| 0 <= i < accesses@.len() ==> (devices@[i] is Some
            <==> accesses@[i]@.user_agent is Some),
    ensures
        r@.len() == accesses@.len(),
        forall|i: int| 0 <= i < r@.len() ==> r@[i]@ == enriched_row(
            property,
            accesses@[i]@,
            view_of_opt_geo(geolocations@[i]),
            view_of_opt_device(devices@[i]),
        ),
{
    let ghost accesses0 = accesses@;
    let ghost geolocations0 = geolocations@;
    let ghost devices0 = devices@;
    let mut accesses = accesses;
    let mut geolocations = geolocations;
    let mut devices = devices;
    let mut rows: Vec<AnalyticsRow> = Vec::new();
    while accesses.len() > 0
        invariant
            accesses0.len() == geolocations0.len(),
            accesses0.len() == devices0.len(),
            accesses@.len() == geolocations@.len(),
            accesses@.len() == devices@.len(),
            rows@.len() + accesses@.len() == accesses0.len(),
            accesses@ == accesses0.skip(rows@.len() as int),
            geolocations@ == geolocations0.skip(rows@.len() as int),
            devices@ == devices0.skip(rows@.len() as int),
            forall|i: int| 0 <= i < rows@.len() ==> rows@[i]@ == enriched_row(
                property,
                accesses0[i]@,
                view_of_opt_geo(geolocations0[i]),
                view_of_opt_device(devices0[i]),
            ),
        decreases accesses@.len(),
    {
        let ghost k = rows@.len() as int;
        let access = accesses.remove(0);
        let geolocation = geolocations.remove(0);
        let device = devices.remove(0);
        proof {
            assert(accesses0.skip(k)[0] == accesses0[k]);
            assert(geolocations0.skip(k)[0] == geolocations0[k]);
            assert(devices0.skip(k)[0] == devices0[k]);
            assert(access == accesses0[k]);
            assert(geolocation == geolocations0[k]);
            assert(device == devices0[k]);
            assert(accesses0.skip(k).remove(0) =~= accesses0.skip(k + 1));
            assert(geolocations0.skip(k).remove(0) =~= geolocations0.skip(k + 1));
            assert(devices0.skip(k).remove(0) =~= devices0.skip(k + 1));
        }
        let row = enrich_access(property, access, geolocation, device);
        rows.push(row);
    }
    rows
}

/// Whether the table already holds this exact row.
pub open spec fn table_contains(t: Seq<RowView>, r: RowView) -> bool {
    exists|i: int| 0 <= i < t.len() && t[i] == r
}

/// The store's insert: appended when new, silently ignored when an equal
/// row exists.
pub open spec fn table_insert(t: Seq<RowView>, r: RowView) -> Seq<RowView> {
    if table_contains(t, r) {
        t
    } else {
        t.push(r)
    }
}

/// A whole batch inserted in order.
pub open spec fn table_insert_all(t: Seq<RowView>, batch: Seq<RowView>) -> Seq<RowView>
    decreases batch.len(),
{
    if batch.len() == 0 {
        t
    } else {
        table_insert_all(table_insert(t, batch[0]), batch.drop_first())
    }
}

proof fn lemma_insert_preserves_contains(t: Seq<RowView>, r: RowView, x: RowView)
    ensures
        table_contains(t, x) ==> table_contains(table_insert(t, r), x),
        table_contains(table_insert(t, r), r),
{
    if table_contains(t, x) {
        let i = choose|i: int| 0 <= i < t.len() && t[i] == x;
        assert(table_insert(t, r)[i] == x);
    }
    if !table_contains(t, r) {
        assert(table_insert(t, r)[t.len() as int] == r);
    }
}

proof fn lemma_insert_all_preserves_contains(t: Seq<RowView>, batch: Seq<RowView>, x: RowView)
    requires
        table_contains(t, x),
    ensures
        table_contains(table_insert_all(t, batch), x),
    decreases batch.len(),
{
    if batch.len() > 0 {
        lemma_insert_preserves_contains(t, batch[0], x);
        lemma_insert_all_preserves_contains(table_insert(t, batch[0]), batch.drop_first(), x);
    }
}

proof fn lemma_insert_all_contains_batch(t: Seq<RowView>, batch: Seq<RowView>)
    ensures
        forall|i: int| 0 <= i < batch.len() ==> table_contains(
            table_insert_all(t, batch),
            batch[i],
        ),
    decreases batch.len(),
{
    if batch.len() > 0 {
        let t1 = table_insert(t, batch[0]);
        let rest = batch.drop_first();
        lemma_insert_preserves_contains(t, batch[0], batch[0]);
        lemma_insert_all_preserves_contains(t1, rest, batch[0]);
        lemma_insert_all_contains_batch(t1, rest);
        assert(forall|i: int| 1 <= i < batch.len() ==> batch[i] == rest[i - 1]);
    }
}

proof fn lemma_insert_all_noop(t: Seq<RowView>, batch: Seq<RowView>)
    requires
        forall|i: int| 0 <= i < batch.len() ==> table_contains(t, batch[i]),
    ensures
        table_insert_all(t, batch) == t,
    decreases batch.len(),
{
    if batch.len() > 0 {
        assert(table_contains(t, batch[0]));
        assert(table_insert(t, batch[0]) == t);
        let rest = batch.drop_first();
        assert(forall|i: int| 0 <= i < rest.len() ==> rest[i] == batch[i + 1]);
        lemma_insert_all_noop(t, rest);
    }
}

/// Ingestion is idempotent on a retried batch: inserting the same rows a
/// second time leaves the table exactly as after the first time — the
/// conflict-ignoring insert adds no row.
pub proof fn lemma_ingest_idempotent(t: Seq<RowView>, batch: Seq<RowView>)
    ensures
        table_insert_all(table_insert_all(t, batch), batch) == table_insert_all(t, batch),
{
    let t1 = table_insert_all(t, batch);
    lemma_insert_all_contains_batch(t, batch);
    lemma_insert_all_noop(t1, batch);
}

/// Whether two rows are equal in every column.
pub fn row_eq(a: &AnalyticsRow, b: &AnalyticsRow) -> (r: bool)
    ensures
        r == (a@ == b@),
{
    let peer_eq = match (a.peer_addr, b.peer_addr) {
        (Some(x), Some(y)) => x == y,
        (None, None) => true,
        _ => false,
    };
    let geo_eq = match (&a.geolocation, &b.geolocation) {
        (Some(x), Some(y)) => geolocation_eq(x, y),
        (None, None) => true,
        _ => false,
    };
    let dev_eq = match (&a.device, &b.device) {
        (Some(x), Some(y)) => device_eq(x, y),
        (None, None) => true,
        _ => false,
    };
    let r = a.property == b.property && a.date == b.date && peer_eq && opt_string_eq(
        &a.user_agent,
        &b.user_agent,
    ) && opt_string_eq(&a.referer, &b.referer) && geo_eq && dev_eq && a.method == b.method
        && a.uri == b.uri;
    r
}

/// The views of a sequence of rows, in order.
pub open spec fn row_views(rows: Seq<AnalyticsRow>) -> Seq<RowView> {
    rows.map_values(|r: AnalyticsRow| r@)
}

/// A model of the `analytics` table: the rows it holds, in insertion
/// order, with the store's duplicate handling.
pub struct AnalyticsTable {
    /// The persisted rows.
    pub rows: Vec<AnalyticsRow>,
}

impl AnalyticsTable {
    /// An empty table.
    pub fn new() -> (r: Self)
        ensures
            r.rows@.len() == 0,
    {
        AnalyticsTable { rows: Vec::new() }
    }

    /// Inserts one row; an exact duplicate of a persisted row is silently
    /// ignored.
    pub fn insert(&mut self, row: AnalyticsRow)
        ensures
            row_views(final(self).rows@) == table_insert(row_views(old(self).rows@), row@),
    {
        let ghost t = row_views(self.rows@);
        let mut i: usize = 0;
        while i < self.rows.len()
            invariant
                i <= self.rows@.len(),
                t == row_views(self.rows@),
                t.len() == self.rows@.len(),
                forall|j: int| 0 <= j < i ==> t[j] != row@,
            decreases self.rows@.len() - i,
        {
            if row_eq(&self.rows[i], &row) {
                proof {
                    assert(t[i as int] == row@);
                    assert(table_contains(t, row@));
                }
                return;
            }
            i += 1;
        }
        proof {
            assert(!table_contains(t, row@));
        }
        self.rows.push(row);
        proof {
            assert(row_views(self.rows@) =~= t.push(row@));
        }
    }

    /// Inserts a whole batch in order.
    pub fn insert_batch(&mut self, batch: Vec<AnalyticsRow>)
        ensures
            row_views(final(self).rows@) == table_insert_all(
                row_views(old(self).rows@),
                row_views(batch@),
            ),
    {
        let ghost batch0 = row_views(batch@);
        let mut batch = batch;
        let n = batch.len();
        let mut k: usize = 0;
        proof {
            assert(batch0.len() == n as int);
            assert(batch0.skip(0) =~= batch0);
        }
        while batch.len() > 0
            invariant
                k + batch@.len() == batch0.len(),
                batch0.len() <= usize::MAX,
                row_views(batch@) == batch0.skip(k as int),
                table_insert_all(row_views(self.rows@), batch0.skip(k as int))
                    == table_insert_all(row_views(old(self).rows@), batch0),
            decreases batch@.len(),
        {
            let ghost pre_rows = row_views(self.rows@);
            let ghost rem = batch0.skip(k as int);
            let row = batch.remove(0);
            proof {
                assert(rem[0] == row@);
                assert(row_views(batch@) =~= rem.drop_first());
                assert(rem.drop_first() =~= batch0.skip(k as int + 1));
            }
            self.insert(row);
            proof {
                assert(table_insert_all(pre_rows, rem) == table_insert_all(
                    table_insert(pre_rows, rem[0]),
                    rem.drop_first(),
                ));
            }
            k += 1;
        }
        proof {
            assert(batch0.skip(batch0.len() as int) =~= Seq::<RowView>::empty());
        }
    }

    /// The number of persisted rows.
    pub fn len(&self) -> (n: usize)
        ensures
            n == self.rows@.len(),
    {
        self.rows.len()
    }
}

} // verus!
