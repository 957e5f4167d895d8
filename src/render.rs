//! Text for the cells of a rollup row: a timestamp's age relative to now, and
//! a byte count.
use vstd::prelude::*;

use crate::directory_stat::DirectoryStat;
use crate::path::{join_paths, path_view};
use crate::timestamp::Timestamp;

verus! {

/// The largest number of whole seconds, either way, that a duration handed to
/// the humanizer may have.
pub const MAX_DELTA_SECS: i64 = 9223372036854774;

/// The largest number of seconds, either way from the epoch, of an instant
/// whose age can be rendered.
pub const MAX_INSTANT_SECS: i64 = 4000000000000000;

/// The English text that chrono-humanize gives for a duration of `secs`
/// seconds and `nanos` nanoseconds.
pub uninterp spec fn humanized(secs: i64, nanos: u32) -> Seq<char>;

/// The text that indicatif gives for `n` bytes in binary units.
pub uninterp spec fn human_bytes(n: u64) -> Seq<char>;

/// Relies on chrono-humanize's `Humanize` impl for `chrono::TimeDelta`: its
/// text is a function of the duration alone. `TimeDelta::seconds` panics beyond
/// `i64::MAX / 1000` seconds, which `requires` leaves out.
#[verifier::external_body]
fn humanize_duration(secs: i64, nanos: u32) -> (r: String)
    requires
        -MAX_DELTA_SECS <= secs <= MAX_DELTA_SECS,
        nanos < 1_000_000_000,
    ensures
        r@ == humanized(secs, nanos),
{
    let delta = chrono::TimeDelta::seconds(secs) + chrono::TimeDelta::nanoseconds(nanos as i64);
    chrono_humanize::Humanize::humanize(&delta)
}

/// Relies on indicatif's `HumanBytes` display: its text is a function of the
/// byte count alone.
#[verifier::external_body]
fn format_bytes(n: u64) -> (r: String)
    ensures
        r@ == human_bytes(n),
{
    format!("{}", indicatif::HumanBytes(n))
}

/// An instant whose age relative to another can be rendered.
pub open spec fn renderable(t: Timestamp) -> bool {
    -MAX_INSTANT_SECS <= t.secs <= MAX_INSTANT_SECS && t.nanos < 2_000_000_000
}

/// The signed distance from `now` to `t`, in nanoseconds.
pub open spec fn delta_nanos(t: Timestamp, now: Timestamp) -> int {
    (t.secs - now.secs) * 1_000_000_000 + t.nanos - now.nanos
}

/// The text for the age of `t` seen from `now`: the humanized duration from
/// `now` to `t` (split into whole seconds, rounded down, and the nanoseconds
/// past them), or "Unknown" when there is no instant.
pub open spec fn age_spec(t: Option<Timestamp>, now: Timestamp) -> Seq<char> {
    match t {
        None => "Unknown"@,
        Some(c) => humanized(
            (delta_nanos(c, now) / 1_000_000_000) as i64,
            (delta_nanos(c, now) % 1_000_000_000) as u32,
        ),
    }
}

/// The age of `t` seen from `now`, in words.
pub fn age_text(t: Option<Timestamp>, now: Timestamp) -> (r: String)
    requires
        renderable(now),
        t matches Some(c) ==> renderable(c),
    ensures
        r@ == age_spec(t, now),
{
    match t {
        None => String::from_str("Unknown"),
        Some(c) => {
            let mut secs: i64 = c.secs - now.secs;
            let mut nanos: i64 = c.nanos as i64 - now.nanos as i64;
            if nanos < 0 {
                nanos = nanos + 1_000_000_000;
                secs = secs - 1;
            }
            if nanos < 0 {
                nanos = nanos + 1_000_000_000;
                secs = secs - 1;
            }
            if nanos >= 1_000_000_000 {
                nanos = nanos - 1_000_000_000;
                secs = secs + 1;
            }
            proof {
                vstd::arithmetic::div_mod::lemma_fundamental_div_mod_converse(
                    delta_nanos(c, now),
                    1_000_000_000,
                    secs as int,
                    nanos as int,
                );
            }
            humanize_duration(secs, nanos as u32)
        },
    }
}

/// A byte count in binary units, in words.
pub fn size_text(n: u64) -> (r: String)
    ensures
        r@ == human_bytes(n),
{
    format_bytes(n)
}

/// The cells of one rollup row.
pub struct RowText {
    pub path: Vec<String>,
    pub files: u64,
    pub size: String,
    pub created: String,
    pub accessed: String,
    pub modified: String,
}

/// Every timestamp of `row` can be rendered.
pub open spec fn row_renderable(row: DirectoryStat) -> bool {
    &&& (row.latest_created matches Some(c) ==> renderable(c))
    &&& (row.latest_accessed matches Some(c) ==> renderable(c))
    &&& (row.latest_modified matches Some(c) ==> renderable(c))
}

/// The cells of `row` seen from `now`: its path under `prefix`, its file
/// count, its size in words, and the age of each of its timestamps.
pub fn render_row(prefix: &Vec<String>, row: &DirectoryStat, now: Timestamp) -> (r: RowText)
    requires
        renderable(now),
        row_renderable(*row),
    ensures
        path_view(r.path@) == path_view(prefix@) + path_view(row.path@),
        r.files == row.file_count,
        r.size@ == human_bytes(row.total_size),
        r.created@ == age_spec(row.latest_created, now),
        r.accessed@ == age_spec(row.latest_accessed, now),
        r.modified@ == age_spec(row.latest_modified, now),
{
    RowText {
        path: join_paths(prefix, &row.path),
        files: row.file_count,
        size: format_bytes(row.total_size),
        created: age_text(row.latest_created, now),
        accessed: age_text(row.latest_accessed, now),
        modified: age_text(row.latest_modified, now),
    }
}

} // verus!
