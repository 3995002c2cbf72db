//! The periodic anonymization rule: rows a year old or older lose their
//! peer address and user agent; younger rows are untouched.

use vstd::prelude::*;
use crate::ingest::{AnalyticsRow, RowView};

verus! {

/// How long a row keeps its peer address and user agent: 365 days, in
/// seconds.
pub const RETENTION_SECONDS: i64 = 365 * 86400;

/// Whether a row this old must be anonymized at the given instant.
pub open spec fn expired(date: int, now: int) -> bool {
    date <= now - RETENTION_SECONDS
}

/// The row with its peer address and user agent overwritten with nulls.
pub open spec fn anonymized(r: RowView) -> RowView {
    RowView { peer_addr: None, user_agent: None, ..r }
}

/// What one anonymization tick at `now` leaves of a row.
pub open spec fn row_after_tick(r: RowView, now: int) -> RowView {
    if expired(r.date, now) {
        anonymized(r)
    } else {
        r
    }
}

/// One anonymization tick over the whole table: every row whose date is a
/// year old or older loses `peer_addr` and `user_agent`; every other row,
/// and every other column, is untouched.
pub fn anonymize_rows(rows: Vec<AnalyticsRow>, now: i64) -> (r: Vec<AnalyticsRow>)
    requires
        now >= i64::MIN + RETENTION_SECONDS,
    ensures
        r@.len() == rows@.len(),
        forall|i: int| 0 <= i < rows@.len() ==> r@[i]@ == row_after_tick(rows@[i]@, now as int),
{
    let ghost rows0 = rows@;
    let cutoff = now - RETENTION_SECONDS;
    let mut rows = rows;
    let mut out: Vec<AnalyticsRow> = Vec::new();
    while rows.len() > 0
        invariant
            cutoff == now - RETENTION_SECONDS,
            out@.len() + rows@.len() == rows0.len(),
            rows@ == rows0.skip(out@.len() as int),
            forall|i: int| 0 <= i < out@.len() ==> out@[i]@ == row_after_tick(rows0[i]@, now as int),
        decreases rows@.len(),
    {
        let ghost k = out@.len() as int;
        let mut row = rows.remove(0);
        proof {
            assert(rows0.skip(k)[0] == rows0[k]);
            assert(rows0.skip(k).remove(0) =~= rows0.skip(k + 1));
        }
        if row.date <= cutoff {
            row.peer_addr = None;
            row.user_agent = None;
        }
        out.push(row);
    }
    out
}

/// After one anonymization tick, every row dated a year or older holds no
/// peer address and no user agent, and every younger row is unchanged.
pub proof fn lemma_anonymize_tick(r: RowView, now: int)
    ensures
        expired(r.date, now) ==> row_after_tick(r, now).peer_addr is None && row_after_tick(
            r,
            now,
        ).user_agent is None,
        !expired(r.date, now) ==> row_after_tick(r, now) == r,
        row_after_tick(r, now).date == r.date,
        row_after_tick(r, now).property == r.property,
        row_after_tick(r, now).referer == r.referer,
        row_after_tick(r, now).geolocation == r.geolocation,
        row_after_tick(r, now).device == r.device,
        row_after_tick(r, now).method == r.method,
        row_after_tick(r, now).uri == r.uri,
{
}

} // verus!
