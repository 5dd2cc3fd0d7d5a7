//! The staleness controller's decisions: the freshness short-circuit, the
//! per-source ingestion plan, and the parsing and comparison of the remote
//! freshness signals. All I/O — reading the cache, the HEAD and GET
//! requests, the atomic temp-file commits — is performed by the caller,
//! which feeds the observed values in and carries the decided actions out.
use vstd::prelude::*;
use crate::data::Metadata;
use crate::text::{split_spec, split_char, parse_u32, all_digits, digits_value};
use crate::catalog::last_seg;

verus! {

/// Seconds in a day: the freshness window of the metadata short-circuit.
pub const DAY_SECONDS: i64 = 86400;

/// Whether a refresh must look at the sources at all. A snapshot refreshed
/// within the last day is fresh unless a force level overrides it.
pub open spec fn spec_needs_refresh(meta: Option<Metadata>, now: i64, force: u8) -> bool {
    !(match meta {
        Some(m) => now - m.last_updated < DAY_SECONDS && force == 0,
        None => false,
    })
}

pub fn needs_refresh(meta: &Option<Metadata>, now: i64, force: u8) -> (r: bool)
    ensures
        r == spec_needs_refresh(*meta, now, force),
{
    match meta {
        Some(m) => {
            let delta: i128 = now as i128 - m.last_updated as i128;
            !(delta < DAY_SECONDS as i128 && force == 0)
        },
        None => true,
    }
}

/// What to do for one source before any network call is made.
#[derive(Debug, Clone, Copy, PartialEq, Eq, Structural)]
pub enum SourceAction {
    /// No processed archive exists: download and ingest unconditionally.
    IngestFresh,
    /// Reprocess the previously downloaded raw document; no network call.
    IngestLocal,
    /// Ask the remote for its freshness signal, then decide.
    CheckRemote,
}

/// The per-source plan: a missing archive is ingested fresh regardless of
/// the local-files flag; otherwise the local flag skips the remote check
/// entirely.
pub open spec fn spec_plan_source(archive_exists: bool, use_local: bool) -> SourceAction {
    if !archive_exists {
        SourceAction::IngestFresh
    } else if use_local {
        SourceAction::IngestLocal
    } else {
        SourceAction::CheckRemote
    }
}

pub fn plan_source(archive_exists: bool, use_local: bool) -> (r: SourceAction)
    ensures
        r == spec_plan_source(archive_exists, use_local),
{
    if !archive_exists {
        SourceAction::IngestFresh
    } else if use_local {
        SourceAction::IngestLocal
    } else {
        SourceAction::CheckRemote
    }
}

/// After the remote check: re-ingest when the remote is newer or the
/// strongest force level is set.
pub fn after_remote_check(remote_newer: bool, force: u8) -> (r: bool)
    ensures
        r == (remote_newer || force == 2),
{
    remote_newer || force == 2
}

/// The whole refresh plan.
pub enum RefreshPlan {
    /// The snapshot is fresh: no network activity, no writes.
    UpToDate,
    /// Process both sources, then rewrite the metadata marker.
    Proceed { catalog: SourceAction, ontology: SourceAction },
}

/// Plans a refresh from the cache state alone.
pub fn plan_refresh(
    meta: &Option<Metadata>,
    now: i64,
    force: u8,
    use_local: bool,
    catalog_archive_exists: bool,
    ontology_archive_exists: bool,
) -> (r: RefreshPlan)
    ensures
        !spec_needs_refresh(*meta, now, force) <==> r is UpToDate,
        r matches RefreshPlan::Proceed { catalog, ontology } ==> catalog == spec_plan_source(
            catalog_archive_exists,
            use_local,
        ) && ontology == spec_plan_source(ontology_archive_exists, use_local),
{
    if !needs_refresh(meta, now, force) {
        return RefreshPlan::UpToDate;
    }
    RefreshPlan::Proceed {
        catalog: plan_source(catalog_archive_exists, use_local),
        ontology: plan_source(ontology_archive_exists, use_local),
    }
}

/// The freshness short-circuit is idempotent: right after a refresh wrote
/// its metadata marker, a second refresh without force decides to do
/// nothing — no network calls and no writes, so the cache stays byte
/// identical.
pub proof fn lemma_refresh_idempotent(m: Metadata, now: i64, force: u8)
    requires
        now - m.last_updated < DAY_SECONDS,
        force == 0,
    ensures
        !spec_needs_refresh(Some(m), now, force),
{
}

// ---------------------------------------------------------------------------
// Dates and datetimes carried by the freshness signals.
// ---------------------------------------------------------------------------
#[derive(Debug, Clone, Copy, PartialEq, Eq, Structural)]
pub struct Date {
    pub year: u32,
    pub month: u32,
    pub day: u32,
}

#[derive(Debug, Clone, Copy, PartialEq, Eq, Structural)]
pub struct DateTime {
    pub date: Date,
    pub hour: u32,
    pub minute: u32,
    pub second: u32,
}

pub open spec fn spec_date_lt(a: Date, b: Date) -> bool {
    if a.year != b.year {
        a.year < b.year
    } else if a.month != b.month {
        a.month < b.month
    } else {
        a.day < b.day
    }
}

pub fn date_lt(a: &Date, b: &Date) -> (r: bool)
    ensures
        r == spec_date_lt(*a, *b),
{
    if a.year != b.year {
        a.year < b.year
    } else if a.month != b.month {
        a.month < b.month
    } else {
        a.day < b.day
    }
}

pub open spec fn spec_datetime_lt(a: DateTime, b: DateTime) -> bool {
    if a.date != b.date {
        spec_date_lt(a.date, b.date)
    } else if a.hour != b.hour {
        a.hour < b.hour
    } else if a.minute != b.minute {
        a.minute < b.minute
    } else {
        a.second < b.second
    }
}

pub fn datetime_lt(a: &DateTime, b: &DateTime) -> (r: bool)
    ensures
        r == spec_datetime_lt(*a, *b),
{
    if a.date != b.date {
        date_lt(&a.date, &b.date)
    } else if a.hour != b.hour {
        a.hour < b.hour
    } else if a.minute != b.minute {
        a.minute < b.minute
    } else {
        a.second < b.second
    }
}

/// The catalog source is re-ingested when its archive on disk is older
/// (by calendar date) than the remote document, or under the strongest
/// force level.
pub fn decide_catalog_reingest(local: &Date, remote: &Date, force: u8) -> (r: bool)
    ensures
        r == (spec_date_lt(*local, *remote) || force == 2),
{
    date_lt(local, remote) || force == 2
}

/// The ontology source compares full timestamps.
pub fn decide_ontology_reingest(local: &DateTime, remote: &DateTime, force: u8) -> (r: bool)
    ensures
        r == (spec_datetime_lt(*local, *remote) || force == 2),
{
    datetime_lt(local, remote) || force == 2
}

// ---------------------------------------------------------------------------
// Parsing the freshness signals.
// ---------------------------------------------------------------------------
pub open spec fn parses_u32_field(d: Seq<char>) -> bool {
    d.len() >= 1 && all_digits(d) && digits_value(d) <= u32::MAX
}

/// A date literal `YYYY-MM-DD` with the month and day in calendar range
/// (days are only bounded by thirty-one).
pub open spec fn spec_parse_iso_date(s: Seq<char>) -> Option<Date> {
    let parts = split_spec(s, '-');
    if parts.len() == 3 && parses_u32_field(parts[0]) && parses_u32_field(parts[1])
        && parses_u32_field(parts[2]) {
        let m = digits_value(parts[1]);
        let d = digits_value(parts[2]);
        if 1 <= m <= 12 && 1 <= d <= 31 {
            Some(
                Date {
                    year: digits_value(parts[0]) as u32,
                    month: m as u32,
                    day: d as u32,
                },
            )
        } else {
            None
        }
    } else {
        None
    }
}

pub fn parse_iso_date(s: &str) -> (r: Option<Date>)
    ensures
        r == spec_parse_iso_date(s@),
{
    let parts = split_char(s, '-');
    if parts.len() != 3 {
        return None;
    }
    proof {
        assert(parts.deep_view()[0] == parts@[0]@);
        assert(parts.deep_view()[1] == parts@[1]@);
        assert(parts.deep_view()[2] == parts@[2]@);
    }
    let y = match parse_u32(parts[0].as_str()) {
        Some(v) => v,
        None => {
            return None;
        },
    };
    let m = match parse_u32(parts[1].as_str()) {
        Some(v) => v,
        None => {
            return None;
        },
    };
    let d = match parse_u32(parts[2].as_str()) {
        Some(v) => v,
        None => {
            return None;
        },
    };
    proof {
        crate::text::lemma_digits_value_nonneg(parts@[0]@);
        crate::text::lemma_digits_value_nonneg(parts@[1]@);
        crate::text::lemma_digits_value_nonneg(parts@[2]@);
    }
    if m < 1 || m > 12 || d < 1 || d > 31 {
        return None;
    }
    Some(Date { year: y, month: m, day: d })
}

/// The catalog freshness signal: a disposition-like header value whose
/// final path piece embeds a date — everything after the last `=`, then
/// after the last `_`, the first character dropped, up to the first `.`.
pub open spec fn spec_catalog_stamp(s: Seq<char>) -> Option<Date> {
    let tail = last_seg(last_seg(s, '='), '_');
    if tail.len() < 1 {
        None
    } else {
        let trimmed = tail.subrange(1, tail.len() as int);
        let datepart = split_spec(trimmed, '.')[0];
        spec_parse_iso_date(datepart)
    }
}

pub fn parse_catalog_stamp(s: &str) -> (r: Option<Date>)
    ensures
        r == spec_catalog_stamp(s@),
{
    let after_eq = crate::catalog::last_segment(s, '=');
    let tail = crate::catalog::last_segment(after_eq.as_str(), '_');
    let n = tail.as_str().unicode_len();
    if n < 1 {
        return None;
    }
    let trimmed = tail.as_str().substring_char(1, n);
    let pieces = split_char(trimmed, '.');
    proof {
        assert(pieces.deep_view()[0] == pieces@[0]@);
    }
    parse_iso_date(pieces[0].as_str())
}

/// Month names of the last-modified-like header.
pub open spec fn spec_month_number(s: Seq<char>) -> Option<u32> {
    if s == "Jan"@ {
        Some(1)
    } else if s == "Feb"@ {
        Some(2)
    } else if s == "Mar"@ {
        Some(3)
    } else if s == "Apr"@ {
        Some(4)
    } else if s == "May"@ {
        Some(5)
    } else if s == "Jun"@ {
        Some(6)
    } else if s == "Jul"@ {
        Some(7)
    } else if s == "Aug"@ {
        Some(8)
    } else if s == "Sep"@ {
        Some(9)
    } else if s == "Oct"@ {
        Some(10)
    } else if s == "Nov"@ {
        Some(11)
    } else if s == "Dec"@ {
        Some(12)
    } else {
        None
    }
}

fn month_number(s: &String) -> (r: Option<u32>)
    ensures
        r == spec_month_number(s@),
{
    if *s == "Jan".to_owned() {
        Some(1)
    } else if *s == "Feb".to_owned() {
        Some(2)
    } else if *s == "Mar".to_owned() {
        Some(3)
    } else if *s == "Apr".to_owned() {
        Some(4)
    } else if *s == "May".to_owned() {
        Some(5)
    } else if *s == "Jun".to_owned() {
        Some(6)
    } else if *s == "Jul".to_owned() {
        Some(7)
    } else if *s == "Aug".to_owned() {
        Some(8)
    } else if *s == "Sep".to_owned() {
        Some(9)
    } else if *s == "Oct".to_owned() {
        Some(10)
    } else if *s == "Nov".to_owned() {
        Some(11)
    } else if *s == "Dec".to_owned() {
        Some(12)
    } else {
        None
    }
}

/// The short weekday names, each with its trailing comma.
pub open spec fn spec_weekday_ok(s: Seq<char>) -> bool {
    ||| s == "Mon,"@
    ||| s == "Tue,"@
    ||| s == "Wed,"@
    ||| s == "Thu,"@
    ||| s == "Fri,"@
    ||| s == "Sat,"@
    ||| s == "Sun,"@
}

fn weekday_ok(s: &String) -> (r: bool)
    ensures
        r == spec_weekday_ok(s@),
{
    *s == "Mon,".to_owned() || *s == "Tue,".to_owned() || *s == "Wed,".to_owned() || *s
        == "Thu,".to_owned() || *s == "Fri,".to_owned() || *s == "Sat,".to_owned() || *s
        == "Sun,".to_owned()
}

/// The ontology freshness signal: `weekday, day month-name year
/// hour:minute:second GMT`, space separated, the weekday one of the seven
/// short names.
pub open spec fn spec_http_date(s: Seq<char>) -> Option<DateTime> {
    let parts = split_spec(s, ' ');
    if parts.len() != 6 {
        None
    } else if parts[5] != "GMT"@ {
        None
    } else if !spec_weekday_ok(parts[0]) {
        None
    } else if !(parses_u32_field(parts[1]) && 1 <= digits_value(parts[1]) <= 31) {
        None
    } else if spec_month_number(parts[2]) is None {
        None
    } else if !parses_u32_field(parts[3]) {
        None
    } else {
        let hms = split_spec(parts[4], ':');
        if hms.len() == 3 && parses_u32_field(hms[0]) && parses_u32_field(hms[1])
            && parses_u32_field(hms[2]) && digits_value(hms[0]) < 24 && digits_value(hms[1]) < 60
            && digits_value(hms[2]) < 60 {
            Some(
                DateTime {
                    date: Date {
                        year: digits_value(parts[3]) as u32,
                        month: spec_month_number(parts[2]).unwrap(),
                        day: digits_value(parts[1]) as u32,
                    },
                    hour: digits_value(hms[0]) as u32,
                    minute: digits_value(hms[1]) as u32,
                    second: digits_value(hms[2]) as u32,
                },
            )
        } else {
            None
        }
    }
}

pub fn parse_http_date(s: &str) -> (r: Option<DateTime>)
    ensures
        r == spec_http_date(s@),
{
    let parts = split_char(s, ' ');
    if parts.len() != 6 {
        return None;
    }
    proof {
        assert forall|k: int| 0 <= k < 6 implies parts.deep_view()[k] == parts@[k]@ by {}
    }
    if !(parts[5] == "GMT".to_owned()) {
        return None;
    }
    if !weekday_ok(&parts[0]) {
        return None;
    }
    let day = match parse_u32(parts[1].as_str()) {
        Some(v) => v,
        None => {
            return None;
        },
    };
    if day < 1 || day > 31 {
        return None;
    }
    let month = match month_number(&parts[2]) {
        Some(v) => v,
        None => {
            return None;
        },
    };
    let year = match parse_u32(parts[3].as_str()) {
        Some(v) => v,
        None => {
            return None;
        },
    };
    let hms = split_char(parts[4].as_str(), ':');
    if hms.len() != 3 {
        return None;
    }
    proof {
        assert forall|k: int| 0 <= k < 3 implies hms.deep_view()[k] == hms@[k]@ by {}
    }
    let hour = match parse_u32(hms[0].as_str()) {
        Some(v) => v,
        None => {
            return None;
        },
    };
    let minute = match parse_u32(hms[1].as_str()) {
        Some(v) => v,
        None => {
            return None;
        },
    };
    let second = match parse_u32(hms[2].as_str()) {
        Some(v) => v,
        None => {
            return None;
        },
    };
    proof {
        crate::text::lemma_digits_value_nonneg(parts@[1]@);
        crate::text::lemma_digits_value_nonneg(parts@[3]@);
        crate::text::lemma_digits_value_nonneg(hms@[0]@);
        crate::text::lemma_digits_value_nonneg(hms@[1]@);
        crate::text::lemma_digits_value_nonneg(hms@[2]@);
    }
    if hour >= 24 || minute >= 60 || second >= 60 {
        return None;
    }
    Some(DateTime { date: Date { year, month, day }, hour, minute, second })
}

} // verus!
